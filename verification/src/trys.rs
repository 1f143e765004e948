//! Fallible steps made explicit.
//!
//! Every `expr?` of a block becomes a branch on the decomposition of `expr`:
//! the value where the step goes on, and a `return` of the converted residual
//! where it short-circuits. A `?` inside a `try` block is left alone, since it
//! leaves that block only; closures, `async` blocks and nested items are
//! scopes of their own and are not entered.

use crate::syntax::{
    arms_view, blocks_view, exprs_view, opt_box_view, opt_view, stmts_view, Arm, ArmView, Block,
    BlockView, Expr, ExprView, Form, FormView, Pat, PatView, Stmt, StmtView,
};
use vstd::prelude::*;

verus! {

/// The pattern `path(name)`.
pub open spec fn binding_pat(path: Seq<char>, name: Seq<char>) -> PatView {
    PatView::TupleStruct {
        path,
        elems: seq![PatView::Ident { name, by_ref: false, mutable: false, subpat: None }],
    }
}

/// The call `path(arg)`.
pub open spec fn call_of(path: Seq<char>, arg: ExprView) -> ExprView {
    ExprView::Call { func: Box::new(ExprView::Verbatim(path)), args: seq![arg] }
}

/// The explicit form of `inner?`:
///
/// ```text
/// (match ::enjoin::polyfill::Try::branch(inner) {
///     ::core::ops::ControlFlow::Break(b) =>
///         return ::enjoin::polyfill::FromResidual::from_residual(b),
///     ::core::ops::ControlFlow::Continue(c) => c,
/// })
/// ```
pub open spec fn branch_on(inner: ExprView) -> ExprView {
    ExprView::Form {
        form: FormView::Paren,
        parts: seq![
            ExprView::Match {
                expr: Box::new(call_of("::enjoin::polyfill::Try::branch"@, inner)),
                arms: seq![
                    ArmView {
                        attrs: Seq::empty(),
                        pat: binding_pat("::core::ops::ControlFlow::Break"@, "b"@),
                        guard: None,
                        body: ExprView::Return {
                            value: Some(
                                Box::new(
                                    call_of(
                                        "::enjoin::polyfill::FromResidual::from_residual"@,
                                        ExprView::Name("b"@),
                                    ),
                                ),
                            ),
                        },
                    },
                    ArmView {
                        attrs: Seq::empty(),
                        pat: binding_pat("::core::ops::ControlFlow::Continue"@, "c"@),
                        guard: None,
                        body: ExprView::Name("c"@),
                    },
                ],
            },
        ],
    }
}

/// An expression with its fallible steps made explicit. `in_try` says whether
/// a `try` block of the same scope encloses the expression.
pub open spec fn expr_desugared(expr: ExprView, in_try: bool) -> ExprView
    decreases expr, 0nat,
{
    match expr {
        ExprView::Name(name) => expr,
        ExprView::Verbatim(text) => expr,
        ExprView::Field { base, member } => ExprView::Field {
            base: Box::new(expr_desugared(*base, in_try)),
            member,
        },
        ExprView::Reference { mutable, expr: target } => ExprView::Reference {
            mutable,
            expr: Box::new(expr_desugared(*target, in_try)),
        },
        ExprView::Call { func, args } => ExprView::Call {
            func: Box::new(expr_desugared(*func, in_try)),
            args: exprs_desugared(args, in_try),
        },
        ExprView::Form { form, parts } => ExprView::Form {
            form,
            parts: exprs_desugared(parts, in_try),
        },
        ExprView::Let { pat, expr: scrutinee } => ExprView::Let {
            pat,
            expr: Box::new(expr_desugared(*scrutinee, in_try)),
        },
        ExprView::If { cond, then_branch, else_branch } => ExprView::If {
            cond: Box::new(expr_desugared(*cond, in_try)),
            then_branch: block_desugared(then_branch, in_try),
            else_branch: opt_box_desugared(else_branch, in_try),
        },
        ExprView::While { label, cond, body } => ExprView::While {
            label,
            cond: Box::new(expr_desugared(*cond, in_try)),
            body: block_desugared(body, in_try),
        },
        ExprView::ForLoop { label, pat, expr: iter, body } => ExprView::ForLoop {
            label,
            pat,
            expr: Box::new(expr_desugared(*iter, in_try)),
            body: block_desugared(body, in_try),
        },
        ExprView::Loop { label, body } => ExprView::Loop {
            label,
            body: block_desugared(body, in_try),
        },
        ExprView::Block { label, block } => ExprView::Block {
            label,
            block: block_desugared(block, in_try),
        },
        ExprView::Match { expr: scrutinee, arms } => ExprView::Match {
            expr: Box::new(expr_desugared(*scrutinee, in_try)),
            arms: arms_desugared(arms, in_try),
        },
        ExprView::Closure { prefix, inputs, output, expr: body } => expr,
        ExprView::Async { capture, block } => expr,
        ExprView::TryBlock { block } => ExprView::TryBlock { block: block_desugared(block, true) },
        ExprView::Await { base } => ExprView::Await {
            base: Box::new(expr_desugared(*base, in_try)),
        },
        ExprView::Try { expr: inner } => if in_try {
            ExprView::Try { expr: Box::new(expr_desugared(*inner, in_try)) }
        } else {
            branch_on(expr_desugared(*inner, in_try))
        },
        ExprView::Break { label, value } => ExprView::Break {
            label,
            value: opt_box_desugared(value, in_try),
        },
        ExprView::Continue { label } => expr,
        ExprView::Return { value } => ExprView::Return {
            value: opt_box_desugared(value, in_try),
        },
    }
}

/// An optional expression with its fallible steps made explicit.
pub open spec fn opt_box_desugared(expr: Option<Box<ExprView>>, in_try: bool) -> Option<
    Box<ExprView>,
>
    decreases expr, 0nat,
{
    match expr {
        Some(inner) => Some(Box::new(expr_desugared(*inner, in_try))),
        None => None,
    }
}

/// An optional expression with its fallible steps made explicit.
pub open spec fn opt_desugared(expr: Option<ExprView>, in_try: bool) -> Option<ExprView>
    decreases expr, 0nat,
{
    match expr {
        Some(inner) => Some(expr_desugared(inner, in_try)),
        None => None,
    }
}

/// Each of the expressions with its fallible steps made explicit.
pub open spec fn exprs_desugared(exprs: Seq<ExprView>, in_try: bool) -> Seq<ExprView>
    decreases exprs, 0nat,
{
    Seq::new(
        exprs.len(),
        |i: int|
            if 0 <= i < exprs.len() {
                expr_desugared(exprs[i], in_try)
            } else {
                ExprView::Verbatim(Seq::empty())
            },
    )
}

/// A block with its fallible steps made explicit.
pub open spec fn block_desugared(block: BlockView, in_try: bool) -> BlockView
    decreases block, 1nat,
{
    BlockView { stmts: stmts_desugared(block.stmts, in_try) }
}

/// Each of the statements with its fallible steps made explicit.
pub open spec fn stmts_desugared(stmts: Seq<StmtView>, in_try: bool) -> Seq<StmtView>
    decreases stmts, 0nat,
{
    Seq::new(
        stmts.len(),
        |i: int|
            if 0 <= i < stmts.len() {
                stmt_desugared(stmts[i], in_try)
            } else {
                StmtView::Item(Seq::empty())
            },
    )
}

/// A statement with its fallible steps made explicit.
pub open spec fn stmt_desugared(stmt: StmtView, in_try: bool) -> StmtView
    decreases stmt, 0nat,
{
    match stmt {
        StmtView::Local { attrs, pat, init, diverge } => StmtView::Local {
            attrs,
            pat,
            init: opt_desugared(init, in_try),
            diverge: opt_desugared(diverge, in_try),
        },
        StmtView::Item(text) => stmt,
        StmtView::Expr { expr, semi } => StmtView::Expr {
            expr: expr_desugared(expr, in_try),
            semi,
        },
    }
}

/// A match arm with its fallible steps made explicit.
pub open spec fn arm_desugared(arm: ArmView, in_try: bool) -> ArmView
    decreases arm, 0nat,
{
    ArmView {
        attrs: arm.attrs,
        pat: arm.pat,
        guard: opt_desugared(arm.guard, in_try),
        body: expr_desugared(arm.body, in_try),
    }
}

/// Each of the match arms with its fallible steps made explicit.
pub open spec fn arms_desugared(arms: Seq<ArmView>, in_try: bool) -> Seq<ArmView>
    decreases arms, 0nat,
{
    Seq::new(
        arms.len(),
        |i: int|
            if 0 <= i < arms.len() {
                arm_desugared(arms[i], in_try)
            } else {
                ArmView {
                    attrs: Seq::empty(),
                    pat: PatView::Verbatim(Seq::empty()),
                    guard: None,
                    body: ExprView::Verbatim(Seq::empty()),
                }
            },
    )
}

/// Each of the blocks with its fallible steps made explicit.
pub open spec fn blocks_desugared(blocks: Seq<BlockView>) -> Seq<BlockView> {
    Seq::new(blocks.len(), |i: int| block_desugared(blocks[i], false))
}

/// Builds the pattern `path(name)`.
pub fn make_binding_pat(path: &str, name: &str) -> (pat: Pat)
    ensures
        pat@ == binding_pat(path@, name@),
{
    let bound = Pat::Ident {
        name: String::from_str(name),
        by_ref: false,
        mutable: false,
        subpat: None,
    };
    let ghost bound_view = bound@;
    assert(bound_view == PatView::Ident {
        name: name@,
        by_ref: false,
        mutable: false,
        subpat: None,
    });
    let mut elems: Vec<Pat> = Vec::new();
    elems.push(bound);
    assert(crate::syntax::pats_view(elems) =~= seq![bound_view]);
    Pat::TupleStruct { path: String::from_str(path), elems }
}

/// Builds the call `path(arg)`.
pub fn make_call(path: &str, arg: Expr) -> (call: Expr)
    ensures
        call@ == call_of(path@, arg@),
{
    let ghost arg_view = arg@;
    let mut args: Vec<Expr> = Vec::new();
    args.push(arg);
    assert(exprs_view(args) =~= seq![arg_view]);
    let func = Expr::Verbatim(String::from_str(path));
    assert(func@ == ExprView::Verbatim(path@));
    Expr::Call { func: Box::new(func), args }
}

/// Builds the explicit form of `inner?`.
fn make_branch(inner: Expr) -> (out: Expr)
    ensures
        out@ == branch_on(inner@),
{
    let ghost inner_view = inner@;
    let scrutinee = make_call("::enjoin::polyfill::Try::branch", inner);
    let residual = Expr::Name(String::from_str("b"));
    assert(residual@ == ExprView::Name("b"@));
    let converted = make_call("::enjoin::polyfill::FromResidual::from_residual", residual);
    let ghost converted_view = converted@;
    let payload = Some(Box::new(converted));
    assert(opt_box_view(payload) == Some(Box::new(converted_view)));
    let leave = Expr::Return { value: payload };
    assert(leave@ == ExprView::Return {
        value: Some(
            Box::new(
                call_of(
                    "::enjoin::polyfill::FromResidual::from_residual"@,
                    ExprView::Name("b"@),
                ),
            ),
        ),
    });
    let stop = Arm {
        attrs: String::new(),
        pat: make_binding_pat("::core::ops::ControlFlow::Break", "b"),
        guard: None,
        body: leave,
    };
    let value = Expr::Name(String::from_str("c"));
    assert(value@ == ExprView::Name("c"@));
    let go_on = Arm {
        attrs: String::new(),
        pat: make_binding_pat("::core::ops::ControlFlow::Continue", "c"),
        guard: None,
        body: value,
    };
    let ghost stop_view = stop@;
    let ghost go_on_view = go_on@;
    let mut arms: Vec<Arm> = Vec::new();
    arms.push(stop);
    arms.push(go_on);
    assert(arms_view(arms) =~= seq![stop_view, go_on_view]);
    let matched = Expr::Match { expr: Box::new(scrutinee), arms };
    let ghost matched_view = matched@;
    assert(matched_view == ExprView::Match {
        expr: Box::new(call_of("::enjoin::polyfill::Try::branch"@, inner_view)),
        arms: seq![stop_view, go_on_view],
    });
    let mut parts: Vec<Expr> = Vec::new();
    parts.push(matched);
    assert(exprs_view(parts) =~= seq![matched_view]);
    let out = Expr::Form { form: Form::Paren, parts };
    assert(out@ == ExprView::Form { form: FormView::Paren, parts: seq![matched_view] });
    out
}

/// Makes the fallible steps of `expr` explicit.
pub fn desugar_expr(expr: Expr, in_try: bool) -> (out: Expr)
    ensures
        out@ == expr_desugared(expr@, in_try),
    decreases expr, 0nat,
{
    let ghost view = expr@;
    match expr {
        Expr::Name(name) => Expr::Name(name),
        Expr::Verbatim(text) => Expr::Verbatim(text),
        Expr::Field { base, member } => {
            let out = Expr::Field { base: Box::new(desugar_expr(*base, in_try)), member };
            assert(out@ == expr_desugared(view, in_try));
            out
        },
        Expr::Reference { mutable, expr: target } => {
            let out = Expr::Reference {
                mutable,
                expr: Box::new(desugar_expr(*target, in_try)),
            };
            assert(out@ == expr_desugared(view, in_try));
            out
        },
        Expr::Call { func, args } => {
            let func = desugar_expr(*func, in_try);
            let args = desugar_exprs(args, in_try);
            let out = Expr::Call { func: Box::new(func), args };
            assert(out@ == expr_desugared(view, in_try));
            out
        },
        Expr::Form { form, parts } => {
            let out = Expr::Form { form, parts: desugar_exprs(parts, in_try) };
            assert(out@ == expr_desugared(view, in_try));
            out
        },
        Expr::Let { pat, expr: scrutinee } => {
            let out = Expr::Let { pat, expr: Box::new(desugar_expr(*scrutinee, in_try)) };
            assert(out@ == expr_desugared(view, in_try));
            out
        },
        Expr::If { cond, then_branch, else_branch } => {
            let cond = desugar_expr(*cond, in_try);
            let then_branch = desugar_block(then_branch, in_try);
            let else_branch = desugar_opt_box(else_branch, in_try);
            let out = Expr::If { cond: Box::new(cond), then_branch, else_branch };
            assert(out@ == expr_desugared(view, in_try));
            out
        },
        Expr::While { label, cond, body } => {
            let cond = desugar_expr(*cond, in_try);
            let body = desugar_block(body, in_try);
            let out = Expr::While { label, cond: Box::new(cond), body };
            assert(out@ == expr_desugared(view, in_try));
            out
        },
        Expr::ForLoop { label, pat, expr: iter, body } => {
            let iter = desugar_expr(*iter, in_try);
            let body = desugar_block(body, in_try);
            let out = Expr::ForLoop { label, pat, expr: Box::new(iter), body };
            assert(out@ == expr_desugared(view, in_try));
            out
        },
        Expr::Loop { label, body } => {
            let out = Expr::Loop { label, body: desugar_block(body, in_try) };
            assert(out@ == expr_desugared(view, in_try));
            out
        },
        Expr::Block { label, block } => {
            let out = Expr::Block { label, block: desugar_block(block, in_try) };
            assert(out@ == expr_desugared(view, in_try));
            out
        },
        Expr::Match { expr: scrutinee, arms } => {
            let scrutinee = desugar_expr(*scrutinee, in_try);
            let arms = desugar_arms(arms, in_try);
            let out = Expr::Match { expr: Box::new(scrutinee), arms };
            assert(out@ == expr_desugared(view, in_try));
            out
        },
        Expr::Closure { prefix, inputs, output, expr: body } => Expr::Closure {
            prefix,
            inputs,
            output,
            expr: body,
        },
        Expr::Async { capture, block } => Expr::Async { capture, block },
        Expr::TryBlock { block } => {
            let out = Expr::TryBlock { block: desugar_block(block, true) };
            assert(out@ == expr_desugared(view, in_try));
            out
        },
        Expr::Await { base } => {
            let out = Expr::Await { base: Box::new(desugar_expr(*base, in_try)) };
            assert(out@ == expr_desugared(view, in_try));
            out
        },
        Expr::Try { expr: inner } => {
            let inner = desugar_expr(*inner, in_try);
            let out = if in_try {
                Expr::Try { expr: Box::new(inner) }
            } else {
                make_branch(inner)
            };
            assert(out@ == expr_desugared(view, in_try));
            out
        },
        Expr::Break { label, value } => {
            let out = Expr::Break { label, value: desugar_opt_box(value, in_try) };
            assert(out@ == expr_desugared(view, in_try));
            out
        },
        Expr::Continue { label } => Expr::Continue { label },
        Expr::Return { value } => {
            let out = Expr::Return { value: desugar_opt_box(value, in_try) };
            assert(out@ == expr_desugared(view, in_try));
            out
        },
    }
}

/// Makes the fallible steps of an optional expression explicit.
fn desugar_opt_box(expr: Option<Box<Expr>>, in_try: bool) -> (out: Option<Box<Expr>>)
    ensures
        opt_box_view(out) == opt_box_desugared(opt_box_view(expr), in_try),
    decreases expr, 0nat,
{
    match expr {
        Some(inner) => Some(Box::new(desugar_expr(*inner, in_try))),
        None => None,
    }
}

/// Makes the fallible steps of an optional expression explicit.
fn desugar_opt(expr: Option<Expr>, in_try: bool) -> (out: Option<Expr>)
    ensures
        opt_view(out) == opt_desugared(opt_view(expr), in_try),
    decreases expr, 0nat,
{
    match expr {
        Some(inner) => Some(desugar_expr(inner, in_try)),
        None => None,
    }
}

/// Makes the fallible steps of each of `exprs` explicit.
fn desugar_exprs(exprs: Vec<Expr>, in_try: bool) -> (out: Vec<Expr>)
    ensures
        exprs_view(out) == exprs_desugared(exprs_view(exprs), in_try),
    decreases exprs, 0nat,
{
    let ghost views = exprs_view(exprs);
    let mut out: Vec<Expr> = Vec::new();
    for item in it: exprs
        invariant
            it.seq() == exprs@,
            views == exprs_view(exprs),
            out.len() == it.index(),
            forall|j: int|
                0 <= j < it.index() ==> (#[trigger] out[j])@ == expr_desugared(views[j], in_try),
    {
        assert(item@ == views[it.index() as int]);
        out.push(desugar_expr(item, in_try));
    }
    assert(exprs_view(out) =~= exprs_desugared(views, in_try));
    out
}

/// Makes the fallible steps of a block explicit.
pub fn desugar_block(block: Block, in_try: bool) -> (out: Block)
    ensures
        out@ == block_desugared(block@, in_try),
    decreases block, 1nat,
{
    Block { stmts: desugar_stmts(block.stmts, in_try) }
}

/// Makes the fallible steps of each of `stmts` explicit.
fn desugar_stmts(stmts: Vec<Stmt>, in_try: bool) -> (out: Vec<Stmt>)
    ensures
        stmts_view(out) == stmts_desugared(stmts_view(stmts), in_try),
    decreases stmts, 0nat,
{
    let ghost views = stmts_view(stmts);
    let mut out: Vec<Stmt> = Vec::new();
    for item in it: stmts
        invariant
            it.seq() == stmts@,
            views == stmts_view(stmts),
            out.len() == it.index(),
            forall|j: int|
                0 <= j < it.index() ==> (#[trigger] out[j])@ == stmt_desugared(views[j], in_try),
    {
        assert(item@ == views[it.index() as int]);
        out.push(desugar_stmt(item, in_try));
    }
    assert(stmts_view(out) =~= stmts_desugared(views, in_try));
    out
}

/// Makes the fallible steps of a statement explicit.
fn desugar_stmt(stmt: Stmt, in_try: bool) -> (out: Stmt)
    ensures
        out@ == stmt_desugared(stmt@, in_try),
    decreases stmt, 0nat,
{
    match stmt {
        Stmt::Local { attrs, pat, init, diverge } => {
            let init = desugar_opt(init, in_try);
            let diverge = desugar_opt(diverge, in_try);
            Stmt::Local { attrs, pat, init, diverge }
        },
        Stmt::Item(text) => Stmt::Item(text),
        Stmt::Expr { expr, semi } => Stmt::Expr { expr: desugar_expr(expr, in_try), semi },
    }
}

/// Makes the fallible steps of each of `arms` explicit.
fn desugar_arms(arms: Vec<Arm>, in_try: bool) -> (out: Vec<Arm>)
    ensures
        arms_view(out) == arms_desugared(arms_view(arms), in_try),
    decreases arms, 0nat,
{
    let ghost views = arms_view(arms);
    let mut out: Vec<Arm> = Vec::new();
    for item in it: arms
        invariant
            it.seq() == arms@,
            views == arms_view(arms),
            out.len() == it.index(),
            forall|j: int|
                0 <= j < it.index() ==> (#[trigger] out[j])@ == arm_desugared(views[j], in_try),
    {
        assert(item@ == views[it.index() as int]);
        let Arm { attrs, pat, guard, body } = item;
        let guard = desugar_opt(guard, in_try);
        let body = desugar_expr(body, in_try);
        out.push(Arm { attrs, pat, guard, body });
    }
    assert(arms_view(out) =~= arms_desugared(views, in_try));
    out
}

/// Makes every fallible step of the blocks explicit, except inside `try`
/// blocks, closures, `async` blocks and nested items.
pub fn replace_trys(blocks: &mut Vec<Block>)
    ensures
        blocks_view(*final(blocks)) == blocks_desugared(blocks_view(*old(blocks))),
        forall|i: int|
            0 <= i < final(blocks).len() ==> block_explicit(
                #[trigger] blocks_view(*final(blocks))[i],
                false,
            ),
{
    let ghost views = blocks_view(*blocks);
    let mut taken: Vec<Block> = Vec::new();
    core::mem::swap(blocks, &mut taken);
    for block in it: taken
        invariant
            it.seq() == taken@,
            views == blocks_view(taken),
            blocks.len() == it.index(),
            forall|j: int|
                0 <= j < it.index() ==> (#[trigger] blocks[j])@ == block_desugared(
                    views[j],
                    false,
                ),
    {
        assert(block@ == views[it.index() as int]);
        blocks.push(desugar_block(block, false));
    }
    assert(blocks_view(*blocks) =~= blocks_desugared(views));
    assert forall|i: int| 0 <= i < blocks.len() implies block_explicit(
        #[trigger] blocks_view(*blocks)[i],
        false,
    ) by {
        lemma_block_desugared_explicit(views[i], false);
    }
}

/// The explicit form of a fallible step holds no fallible step but those of
/// the expression that it branches on.
proof fn lemma_branch_explicit(inner: ExprView)
    requires
        explicit(inner, false),
    ensures
        explicit(branch_on(inner), false),
{
    let scrutinee = call_of("::enjoin::polyfill::Try::branch"@, inner);
    assert(explicit(ExprView::Verbatim("::enjoin::polyfill::Try::branch"@), false));
    assert(explicit(scrutinee, false)) by {
        assert(scrutinee->Call_args[0] == inner);
    }
    let converted = call_of(
        "::enjoin::polyfill::FromResidual::from_residual"@,
        ExprView::Name("b"@),
    );
    assert(explicit(ExprView::Name("b"@), false));
    assert(explicit(ExprView::Name("c"@), false));
    assert(explicit(
        ExprView::Verbatim("::enjoin::polyfill::FromResidual::from_residual"@),
        false,
    ));
    assert(explicit(converted, false)) by {
        assert(converted->Call_args[0] == ExprView::Name("b"@));
    }
    let leave = ExprView::Return { value: Some(Box::new(converted)) };
    assert(explicit(leave, false));
    let whole = branch_on(inner);
    let matched = whole->Form_parts[0];
    assert(matched->Match_arms[0].body == leave);
    assert(matched->Match_arms[1].body == ExprView::Name("c"@));
    assert forall|i: int| 0 <= i < matched->Match_arms.len() implies arm_explicit(
        #[trigger] matched->Match_arms[i],
        false,
    ) by {
        assert(i == 0 || i == 1);
    }
    assert(explicit(matched, false));
    assert(whole->Form_parts.len() == 1);
    assert(explicit(whole, false));
}

/// Whether no fallible step of the expression is left implicit: every `?`
/// stands inside a `try` block, or inside a closure or an `async` block,
/// which are not entered. `in_try` says whether a `try` block of the same
/// scope encloses the expression.
pub open spec fn explicit(expr: ExprView, in_try: bool) -> bool
    decreases expr, 0nat,
{
    match expr {
        ExprView::Name(name) => true,
        ExprView::Verbatim(text) => true,
        ExprView::Field { base, member } => explicit(*base, in_try),
        ExprView::Reference { mutable, expr: target } => explicit(*target, in_try),
        ExprView::Call { func, args } => {
            &&& explicit(*func, in_try)
            &&& forall|i: int| 0 <= i < args.len() ==> explicit(#[trigger] args[i], in_try)
        },
        ExprView::Form { form, parts } => forall|i: int|
            0 <= i < parts.len() ==> explicit(#[trigger] parts[i], in_try),
        ExprView::Let { pat, expr: scrutinee } => explicit(*scrutinee, in_try),
        ExprView::If { cond, then_branch, else_branch } => {
            &&& explicit(*cond, in_try)
            &&& block_explicit(then_branch, in_try)
            &&& else_branch matches Some(inner) ==> explicit(*inner, in_try)
        },
        ExprView::While { label, cond, body } => {
            &&& explicit(*cond, in_try)
            &&& block_explicit(body, in_try)
        },
        ExprView::ForLoop { label, pat, expr: iter, body } => {
            &&& explicit(*iter, in_try)
            &&& block_explicit(body, in_try)
        },
        ExprView::Loop { label, body } => block_explicit(body, in_try),
        ExprView::Block { label, block } => block_explicit(block, in_try),
        ExprView::Match { expr: scrutinee, arms } => {
            &&& explicit(*scrutinee, in_try)
            &&& forall|i: int| 0 <= i < arms.len() ==> arm_explicit(#[trigger] arms[i], in_try)
        },
        ExprView::Closure { prefix, inputs, output, expr: body } => true,
        ExprView::Async { capture, block } => true,
        ExprView::TryBlock { block } => block_explicit(block, true),
        ExprView::Await { base } => explicit(*base, in_try),
        ExprView::Try { expr: inner } => {
            &&& in_try
            &&& explicit(*inner, in_try)
        },
        ExprView::Break { label, value } => value matches Some(inner) ==> explicit(*inner, in_try),
        ExprView::Continue { label } => true,
        ExprView::Return { value } => value matches Some(inner) ==> explicit(*inner, in_try),
    }
}

/// Whether no fallible step of the block is left implicit.
pub open spec fn block_explicit(block: BlockView, in_try: bool) -> bool
    decreases block, 0nat,
{
    forall|i: int| 0 <= i < block.stmts.len() ==> stmt_explicit(#[trigger] block.stmts[i], in_try)
}

/// Whether no fallible step of the statement is left implicit.
pub open spec fn stmt_explicit(stmt: StmtView, in_try: bool) -> bool
    decreases stmt, 0nat,
{
    match stmt {
        StmtView::Local { attrs, pat, init, diverge } => {
            &&& init matches Some(inner) ==> explicit(inner, in_try)
            &&& diverge matches Some(inner) ==> explicit(inner, in_try)
        },
        StmtView::Item(text) => true,
        StmtView::Expr { expr, semi } => explicit(expr, in_try),
    }
}

/// Whether no fallible step of the match arm is left implicit.
pub open spec fn arm_explicit(arm: ArmView, in_try: bool) -> bool
    decreases arm, 0nat,
{
    &&& arm.guard matches Some(inner) ==> explicit(inner, in_try)
    &&& explicit(arm.body, in_try)
}

/// Making the fallible steps explicit leaves none of them implicit.
pub proof fn lemma_desugared_explicit(expr: ExprView, in_try: bool)
    ensures
        explicit(expr_desugared(expr, in_try), in_try),
    decreases expr, 0nat,
{
    match expr {
        ExprView::Name(name) => {},
        ExprView::Verbatim(text) => {},
        ExprView::Field { base, member } => {
            lemma_desugared_explicit(*base, in_try);
            assert(explicit(expr_desugared(expr, in_try), in_try));
        },
        ExprView::Reference { mutable, expr: target } => {
            lemma_desugared_explicit(*target, in_try);
            assert(explicit(expr_desugared(expr, in_try), in_try));
        },
        ExprView::Call { func, args } => {
            lemma_desugared_explicit(*func, in_try);
            assert forall|i: int| 0 <= i < args.len() implies explicit(
                #[trigger] exprs_desugared(args, in_try)[i],
                in_try,
            ) by {
                lemma_desugared_explicit(args[i], in_try);
                assert(exprs_desugared(args, in_try)[i] == expr_desugared(args[i], in_try));
            }
            assert(explicit(expr_desugared(expr, in_try), in_try));
        },
        ExprView::Form { form, parts } => {
            assert forall|i: int| 0 <= i < parts.len() implies explicit(
                #[trigger] exprs_desugared(parts, in_try)[i],
                in_try,
            ) by {
                lemma_desugared_explicit(parts[i], in_try);
                assert(exprs_desugared(parts, in_try)[i] == expr_desugared(parts[i], in_try));
            }
            assert(explicit(expr_desugared(expr, in_try), in_try));
        },
        ExprView::Let { pat, expr: scrutinee } => {
            lemma_desugared_explicit(*scrutinee, in_try);
            assert(explicit(expr_desugared(expr, in_try), in_try));
        },
        ExprView::If { cond, then_branch, else_branch } => {
            lemma_desugared_explicit(*cond, in_try);
            lemma_block_desugared_explicit(then_branch, in_try);
            match else_branch {
                Some(inner) => {
                    lemma_desugared_explicit(*inner, in_try);
                    assert(opt_box_desugared(else_branch, in_try)
                        == Some(Box::new(expr_desugared(*inner, in_try))));
                },
                None => {
                    assert(opt_box_desugared(else_branch, in_try) is None);
                },
            }
            assert(explicit(expr_desugared(expr, in_try), in_try));
        },
        ExprView::While { label, cond, body } => {
            lemma_desugared_explicit(*cond, in_try);
            lemma_block_desugared_explicit(body, in_try);
            assert(explicit(expr_desugared(expr, in_try), in_try));
        },
        ExprView::ForLoop { label, pat, expr: iter, body } => {
            lemma_desugared_explicit(*iter, in_try);
            lemma_block_desugared_explicit(body, in_try);
            assert(explicit(expr_desugared(expr, in_try), in_try));
        },
        ExprView::Loop { label, body } => {
            lemma_block_desugared_explicit(body, in_try);
            assert(explicit(expr_desugared(expr, in_try), in_try));
        },
        ExprView::Block { label, block } => {
            lemma_block_desugared_explicit(block, in_try);
            assert(explicit(expr_desugared(expr, in_try), in_try));
        },
        ExprView::Match { expr: scrutinee, arms } => {
            lemma_desugared_explicit(*scrutinee, in_try);
            assert forall|i: int| 0 <= i < arms.len() implies arm_explicit(
                #[trigger] arms_desugared(arms, in_try)[i],
                in_try,
            ) by {
                match arms[i].guard {
                    Some(guard) => {
                        lemma_desugared_explicit(guard, in_try);
                    },
                    None => {},
                }
                lemma_desugared_explicit(arms[i].body, in_try);
                assert(arms_desugared(arms, in_try)[i] == arm_desugared(arms[i], in_try));
            }
            assert(explicit(expr_desugared(expr, in_try), in_try));
        },
        ExprView::Closure { prefix, inputs, output, expr: body } => {},
        ExprView::Async { capture, block } => {},
        ExprView::TryBlock { block } => {
            lemma_block_desugared_explicit(block, true);
            assert(explicit(expr_desugared(expr, in_try), in_try));
        },
        ExprView::Await { base } => {
            lemma_desugared_explicit(*base, in_try);
            assert(explicit(expr_desugared(expr, in_try), in_try));
        },
        ExprView::Try { expr: inner } => {
            lemma_desugared_explicit(*inner, in_try);
            if !in_try {
                lemma_branch_explicit(expr_desugared(*inner, in_try));
            }
            assert(explicit(expr_desugared(expr, in_try), in_try));
        },
        ExprView::Break { label, value } => {
            match value {
                Some(inner) => {
                    lemma_desugared_explicit(*inner, in_try);
                    assert(opt_box_desugared(value, in_try)
                        == Some(Box::new(expr_desugared(*inner, in_try))));
                },
                None => {
                    assert(opt_box_desugared(value, in_try) is None);
                },
            }
            assert(explicit(expr_desugared(expr, in_try), in_try));
        },
        ExprView::Continue { label } => {},
        ExprView::Return { value } => {
            match value {
                Some(inner) => {
                    lemma_desugared_explicit(*inner, in_try);
                    assert(opt_box_desugared(value, in_try)
                        == Some(Box::new(expr_desugared(*inner, in_try))));
                },
                None => {
                    assert(opt_box_desugared(value, in_try) is None);
                },
            }
            assert(explicit(expr_desugared(expr, in_try), in_try));
        },
    }
}

/// Making the fallible steps of a block explicit leaves none of them
/// implicit.
pub proof fn lemma_block_desugared_explicit(block: BlockView, in_try: bool)
    ensures
        block_explicit(block_desugared(block, in_try), in_try),
    decreases block, 0nat,
{
    let turned = block_desugared(block, in_try);
    assert forall|i: int| 0 <= i < turned.stmts.len() implies stmt_explicit(
        #[trigger] turned.stmts[i],
        in_try,
    ) by {
        lemma_stmt_desugared_explicit(block.stmts[i], in_try);
    }
}

/// Making the fallible steps of a statement explicit leaves none of them
/// implicit.
proof fn lemma_stmt_desugared_explicit(stmt: StmtView, in_try: bool)
    ensures
        stmt_explicit(stmt_desugared(stmt, in_try), in_try),
    decreases stmt, 0nat,
{
    match stmt {
        StmtView::Local { attrs, pat, init, diverge } => {
            match init {
                Some(inner) => {
                    lemma_desugared_explicit(inner, in_try);
                },
                None => {},
            }
            match diverge {
                Some(inner) => {
                    lemma_desugared_explicit(inner, in_try);
                },
                None => {},
            }
        },
        StmtView::Item(text) => {},
        StmtView::Expr { expr, semi } => {
            lemma_desugared_explicit(expr, in_try);
        },
    }
}

} // verus!
