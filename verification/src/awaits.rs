//! Suspension points that give the shared cell free.
//!
//! A block that shares captures holds the cell from its first statement on.
//! Around every `.await` of the block the hold is dropped before the block
//! suspends and taken again as soon as it resumes, so that the cell is never
//! held across a suspension. Closures, `async` blocks and nested items are
//! not entered.

use crate::syntax::{
    arms_view, blocks_view, exprs_view, opt_box_view, opt_view, stmts_view, Arm, ArmView, Block,
    BlockView, Expr, ExprView, Form, FormView, Member, MemberView, Name, Pat, PatView, Stmt,
    StmtView,
};
use crate::trys::{call_of, make_call};
use vstd::prelude::*;

verus! {

/// `::std::cell::RefCell::borrow_mut(&cell)`
pub open spec fn acquire_call(cell: Name) -> ExprView {
    call_of(
        "::std::cell::RefCell::borrow_mut"@,
        ExprView::Reference { mutable: false, expr: Box::new(ExprView::Name(cell)) },
    )
}

/// The block `{ expr; }`.
pub open spec fn block_of(expr: ExprView) -> ExprView {
    ExprView::Block {
        label: None,
        block: BlockView { stmts: seq![StmtView::Expr { expr, semi: true }] },
    }
}

/// `(first, second).0`
pub open spec fn first_of(first: ExprView, second: ExprView) -> ExprView {
    ExprView::Field {
        base: Box::new(ExprView::Form { form: FormView::Tuple, parts: seq![first, second] }),
        member: MemberView::Unnamed(0),
    }
}

/// The wrapped form of `base.await`, for a block that holds the cell `cell`
/// under the name `hold`:
///
/// ```text
/// ((base, { ::core::mem::drop(hold); }).0.await,
///  { hold = ::std::cell::RefCell::borrow_mut(&cell); }).0
/// ```
pub open spec fn suspended(base: ExprView, hold: Name, cell: Name) -> ExprView {
    first_of(
        ExprView::Await {
            base: Box::new(
                first_of(base, block_of(call_of("::core::mem::drop"@, ExprView::Name(hold)))),
            ),
        },
        block_of(
            ExprView::Form {
                form: FormView::Assign,
                parts: seq![ExprView::Name(hold), acquire_call(cell)],
            },
        ),
    )
}

/// The statement by which a block takes hold of the cell:
/// `let mut hold = ::std::cell::RefCell::borrow_mut(&cell);`.
pub open spec fn acquire_stmt(hold: Name, cell: Name) -> StmtView {
    StmtView::Local {
        attrs: Seq::empty(),
        pat: PatView::Ident { name: hold, by_ref: false, mutable: true, subpat: None },
        init: Some(acquire_call(cell)),
        diverge: None,
    }
}

/// An expression with its suspension points wrapped.
pub open spec fn expr_released(expr: ExprView, hold: Name, cell: Name) -> ExprView
    decreases expr, 0nat,
{
    match expr {
        ExprView::Name(name) => expr,
        ExprView::Verbatim(text) => expr,
        ExprView::Field { base, member } => ExprView::Field {
            base: Box::new(expr_released(*base, hold, cell)),
            member,
        },
        ExprView::Reference { mutable, expr: target } => ExprView::Reference {
            mutable,
            expr: Box::new(expr_released(*target, hold, cell)),
        },
        ExprView::Call { func, args } => ExprView::Call {
            func: Box::new(expr_released(*func, hold, cell)),
            args: exprs_released(args, hold, cell),
        },
        ExprView::Form { form, parts } => ExprView::Form {
            form,
            parts: exprs_released(parts, hold, cell),
        },
        ExprView::Let { pat, expr: scrutinee } => ExprView::Let {
            pat,
            expr: Box::new(expr_released(*scrutinee, hold, cell)),
        },
        ExprView::If { cond, then_branch, else_branch } => ExprView::If {
            cond: Box::new(expr_released(*cond, hold, cell)),
            then_branch: block_released(then_branch, hold, cell),
            else_branch: opt_box_released(else_branch, hold, cell),
        },
        ExprView::While { label, cond, body } => ExprView::While {
            label,
            cond: Box::new(expr_released(*cond, hold, cell)),
            body: block_released(body, hold, cell),
        },
        ExprView::ForLoop { label, pat, expr: iter, body } => ExprView::ForLoop {
            label,
            pat,
            expr: Box::new(expr_released(*iter, hold, cell)),
            body: block_released(body, hold, cell),
        },
        ExprView::Loop { label, body } => ExprView::Loop {
            label,
            body: block_released(body, hold, cell),
        },
        ExprView::Block { label, block } => ExprView::Block {
            label,
            block: block_released(block, hold, cell),
        },
        ExprView::Match { expr: scrutinee, arms } => ExprView::Match {
            expr: Box::new(expr_released(*scrutinee, hold, cell)),
            arms: arms_released(arms, hold, cell),
        },
        ExprView::Closure { prefix, inputs, output, expr: body } => expr,
        ExprView::Async { capture, block } => expr,
        ExprView::TryBlock { block } => {
            &&& ExprView::TryBlock { block: block_released(block, hold, cell) }
        },
        ExprView::Await { base } => suspended(expr_released(*base, hold, cell), hold, cell),
        ExprView::Try { expr: inner } => ExprView::Try {
            expr: Box::new(expr_released(*inner, hold, cell)),
        },
        ExprView::Break { label, value } => ExprView::Break {
            label,
            value: opt_box_released(value, hold, cell),
        },
        ExprView::Continue { label } => expr,
        ExprView::Return { value } => ExprView::Return {
            value: opt_box_released(value, hold, cell),
        },
    }
}

/// An optional expression with its suspension points wrapped.
pub open spec fn opt_box_released(expr: Option<Box<ExprView>>, hold: Name, cell: Name) -> Option<
    Box<ExprView>,
>
    decreases expr, 0nat,
{
    match expr {
        Some(inner) => Some(Box::new(expr_released(*inner, hold, cell))),
        None => None,
    }
}

/// An optional expression with its suspension points wrapped.
pub open spec fn opt_released(expr: Option<ExprView>, hold: Name, cell: Name) -> Option<ExprView>
    decreases expr, 0nat,
{
    match expr {
        Some(inner) => Some(expr_released(inner, hold, cell)),
        None => None,
    }
}

/// Each of the expressions with its suspension points wrapped.
pub open spec fn exprs_released(exprs: Seq<ExprView>, hold: Name, cell: Name) -> Seq<ExprView>
    decreases exprs, 0nat,
{
    Seq::new(
        exprs.len(),
        |i: int|
            if 0 <= i < exprs.len() {
                expr_released(exprs[i], hold, cell)
            } else {
                ExprView::Verbatim(Seq::empty())
            },
    )
}

/// A block with its suspension points wrapped.
pub open spec fn block_released(block: BlockView, hold: Name, cell: Name) -> BlockView
    decreases block, 1nat,
{
    BlockView { stmts: stmts_released(block.stmts, hold, cell) }
}

/// Each of the statements with its suspension points wrapped.
pub open spec fn stmts_released(stmts: Seq<StmtView>, hold: Name, cell: Name) -> Seq<StmtView>
    decreases stmts, 0nat,
{
    Seq::new(
        stmts.len(),
        |i: int|
            if 0 <= i < stmts.len() {
                stmt_released(stmts[i], hold, cell)
            } else {
                StmtView::Item(Seq::empty())
            },
    )
}

/// A statement with its suspension points wrapped.
pub open spec fn stmt_released(stmt: StmtView, hold: Name, cell: Name) -> StmtView
    decreases stmt, 0nat,
{
    match stmt {
        StmtView::Local { attrs, pat, init, diverge } => StmtView::Local {
            attrs,
            pat,
            init: opt_released(init, hold, cell),
            diverge: opt_released(diverge, hold, cell),
        },
        StmtView::Item(text) => stmt,
        StmtView::Expr { expr, semi } => StmtView::Expr {
            expr: expr_released(expr, hold, cell),
            semi,
        },
    }
}

/// A match arm with its suspension points wrapped.
pub open spec fn arm_released(arm: ArmView, hold: Name, cell: Name) -> ArmView
    decreases arm, 0nat,
{
    ArmView {
        attrs: arm.attrs,
        pat: arm.pat,
        guard: opt_released(arm.guard, hold, cell),
        body: expr_released(arm.body, hold, cell),
    }
}

/// Each of the match arms with its suspension points wrapped.
pub open spec fn arms_released(arms: Seq<ArmView>, hold: Name, cell: Name) -> Seq<ArmView>
    decreases arms, 0nat,
{
    Seq::new(
        arms.len(),
        |i: int|
            if 0 <= i < arms.len() {
                arm_released(arms[i], hold, cell)
            } else {
                ArmView {
                    attrs: Seq::empty(),
                    pat: PatView::Verbatim(Seq::empty()),
                    guard: None,
                    body: ExprView::Verbatim(Seq::empty()),
                }
            },
    )
}

/// A block that takes hold of the cell and gives it free around its
/// suspension points.
pub open spec fn block_holding(block: BlockView, hold: Name, cell: Name) -> BlockView {
    BlockView { stmts: seq![acquire_stmt(hold, cell)] + block_released(block, hold, cell).stmts }
}

/// Each of the blocks, holding the cell and giving it free around its
/// suspension points.
pub open spec fn blocks_holding(blocks: Seq<BlockView>, hold: Name, cell: Name) -> Seq<BlockView> {
    Seq::new(blocks.len(), |i: int| block_holding(blocks[i], hold, cell))
}

/// Builds `::std::cell::RefCell::borrow_mut(&cell)`.
fn make_acquire_call(cell: &String) -> (call: Expr)
    ensures
        call@ == acquire_call(cell@),
{
    let name = Expr::Name(cell.clone());
    assert(name@ == ExprView::Name(cell@));
    let shared = Expr::Reference { mutable: false, expr: Box::new(name) };
    assert(shared@ == ExprView::Reference {
        mutable: false,
        expr: Box::new(ExprView::Name(cell@)),
    });
    make_call("::std::cell::RefCell::borrow_mut", shared)
}

/// Builds the block `{ expr; }`.
fn make_block_of(expr: Expr) -> (out: Expr)
    ensures
        out@ == block_of(expr@),
{
    let ghost expr_view = expr@;
    let stmt = Stmt::Expr { expr, semi: true };
    let ghost stmt_view = stmt@;
    assert(stmt_view == StmtView::Expr { expr: expr_view, semi: true });
    let mut stmts: Vec<Stmt> = Vec::new();
    stmts.push(stmt);
    assert(stmts_view(stmts) =~= seq![stmt_view]);
    let block = Block { stmts };
    assert(block@ == BlockView { stmts: seq![stmt_view] });
    Expr::Block { label: None, block }
}

/// Builds `(first, second).0`.
fn make_first_of(first: Expr, second: Expr) -> (out: Expr)
    ensures
        out@ == first_of(first@, second@),
{
    let ghost first_view = first@;
    let ghost second_view = second@;
    let mut parts: Vec<Expr> = Vec::new();
    parts.push(first);
    parts.push(second);
    assert(exprs_view(parts) =~= seq![first_view, second_view]);
    let tuple = Expr::Form { form: Form::Tuple, parts };
    assert(tuple@ == ExprView::Form {
        form: FormView::Tuple,
        parts: seq![first_view, second_view],
    });
    Expr::Field { base: Box::new(tuple), member: Member::Unnamed(0) }
}

/// Builds the wrapped form of `base.await`.
fn make_suspended(base: Expr, hold: &String, cell: &String) -> (out: Expr)
    ensures
        out@ == suspended(base@, hold@, cell@),
{
    let ghost base_view = base@;
    let held = Expr::Name(hold.clone());
    assert(held@ == ExprView::Name(hold@));
    let release = make_block_of(make_call("::core::mem::drop", held));
    let leaving = make_first_of(base, release);
    let ghost leaving_view = leaving@;
    let wait = Expr::Await { base: Box::new(leaving) };
    assert(wait@ == ExprView::Await { base: Box::new(leaving_view) });
    let target = Expr::Name(hold.clone());
    assert(target@ == ExprView::Name(hold@));
    let source = make_acquire_call(cell);
    let ghost target_view = target@;
    let ghost source_view = source@;
    let mut sides: Vec<Expr> = Vec::new();
    sides.push(target);
    sides.push(source);
    assert(exprs_view(sides) =~= seq![target_view, source_view]);
    let assign = Expr::Form { form: Form::Assign, parts: sides };
    assert(assign@ == ExprView::Form {
        form: FormView::Assign,
        parts: seq![ExprView::Name(hold@), acquire_call(cell@)],
    });
    make_first_of(wait, make_block_of(assign))
}

/// Builds the statement by which a block takes hold of the cell.
fn make_acquire_stmt(hold: &String, cell: &String) -> (stmt: Stmt)
    ensures
        stmt@ == acquire_stmt(hold@, cell@),
{
    let pat = Pat::Ident { name: hold.clone(), by_ref: false, mutable: true, subpat: None };
    assert(pat@ == PatView::Ident { name: hold@, by_ref: false, mutable: true, subpat: None });
    let init = Some(make_acquire_call(cell));
    assert(opt_view(init) == Some(acquire_call(cell@)));
    Stmt::Local { attrs: String::new(), pat, init, diverge: None }
}

/// Wraps the suspension points of `expr`.
pub fn release_expr(expr: Expr, hold: &String, cell: &String) -> (out: Expr)
    ensures
        out@ == expr_released(expr@, hold@, cell@),
    decreases expr, 0nat,
{
    let ghost view = expr@;
    match expr {
        Expr::Name(name) => Expr::Name(name),
        Expr::Verbatim(text) => Expr::Verbatim(text),
        Expr::Field { base, member } => {
            let out = Expr::Field { base: Box::new(release_expr(*base, hold, cell)), member };
            assert(out@ == expr_released(view, hold@, cell@));
            out
        },
        Expr::Reference { mutable, expr: target } => {
            let out = Expr::Reference {
                mutable,
                expr: Box::new(release_expr(*target, hold, cell)),
            };
            assert(out@ == expr_released(view, hold@, cell@));
            out
        },
        Expr::Call { func, args } => {
            let func = release_expr(*func, hold, cell);
            let args = release_exprs(args, hold, cell);
            let out = Expr::Call { func: Box::new(func), args };
            assert(out@ == expr_released(view, hold@, cell@));
            out
        },
        Expr::Form { form, parts } => {
            let out = Expr::Form { form, parts: release_exprs(parts, hold, cell) };
            assert(out@ == expr_released(view, hold@, cell@));
            out
        },
        Expr::Let { pat, expr: scrutinee } => {
            let out = Expr::Let { pat, expr: Box::new(release_expr(*scrutinee, hold, cell)) };
            assert(out@ == expr_released(view, hold@, cell@));
            out
        },
        Expr::If { cond, then_branch, else_branch } => {
            let cond = release_expr(*cond, hold, cell);
            let then_branch = release_block(then_branch, hold, cell);
            let else_branch = release_opt_box(else_branch, hold, cell);
            let out = Expr::If { cond: Box::new(cond), then_branch, else_branch };
            assert(out@ == expr_released(view, hold@, cell@));
            out
        },
        Expr::While { label, cond, body } => {
            let cond = release_expr(*cond, hold, cell);
            let body = release_block(body, hold, cell);
            let out = Expr::While { label, cond: Box::new(cond), body };
            assert(out@ == expr_released(view, hold@, cell@));
            out
        },
        Expr::ForLoop { label, pat, expr: iter, body } => {
            let iter = release_expr(*iter, hold, cell);
            let body = release_block(body, hold, cell);
            let out = Expr::ForLoop { label, pat, expr: Box::new(iter), body };
            assert(out@ == expr_released(view, hold@, cell@));
            out
        },
        Expr::Loop { label, body } => {
            let out = Expr::Loop { label, body: release_block(body, hold, cell) };
            assert(out@ == expr_released(view, hold@, cell@));
            out
        },
        Expr::Block { label, block } => {
            let out = Expr::Block { label, block: release_block(block, hold, cell) };
            assert(out@ == expr_released(view, hold@, cell@));
            out
        },
        Expr::Match { expr: scrutinee, arms } => {
            let scrutinee = release_expr(*scrutinee, hold, cell);
            let arms = release_arms(arms, hold, cell);
            let out = Expr::Match { expr: Box::new(scrutinee), arms };
            assert(out@ == expr_released(view, hold@, cell@));
            out
        },
        Expr::Closure { prefix, inputs, output, expr: body } => Expr::Closure {
            prefix,
            inputs,
            output,
            expr: body,
        },
        Expr::Async { capture, block } => Expr::Async { capture, block },
        Expr::TryBlock { block } => {
            let out = Expr::TryBlock { block: release_block(block, hold, cell) };
            assert(out@ == expr_released(view, hold@, cell@));
            out
        },
        Expr::Await { base } => {
            let out = make_suspended(release_expr(*base, hold, cell), hold, cell);
            assert(out@ == expr_released(view, hold@, cell@));
            out
        },
        Expr::Try { expr: inner } => {
            let out = Expr::Try { expr: Box::new(release_expr(*inner, hold, cell)) };
            assert(out@ == expr_released(view, hold@, cell@));
            out
        },
        Expr::Break { label, value } => {
            let out = Expr::Break { label, value: release_opt_box(value, hold, cell) };
            assert(out@ == expr_released(view, hold@, cell@));
            out
        },
        Expr::Continue { label } => Expr::Continue { label },
        Expr::Return { value } => {
            let out = Expr::Return { value: release_opt_box(value, hold, cell) };
            assert(out@ == expr_released(view, hold@, cell@));
            out
        },
    }
}

/// Wraps the suspension points of an optional expression.
fn release_opt_box(expr: Option<Box<Expr>>, hold: &String, cell: &String) -> (out: Option<
    Box<Expr>,
>)
    ensures
        opt_box_view(out) == opt_box_released(opt_box_view(expr), hold@, cell@),
    decreases expr, 0nat,
{
    match expr {
        Some(inner) => Some(Box::new(release_expr(*inner, hold, cell))),
        None => None,
    }
}

/// Wraps the suspension points of an optional expression.
fn release_opt(expr: Option<Expr>, hold: &String, cell: &String) -> (out: Option<Expr>)
    ensures
        opt_view(out) == opt_released(opt_view(expr), hold@, cell@),
    decreases expr, 0nat,
{
    match expr {
        Some(inner) => Some(release_expr(inner, hold, cell)),
        None => None,
    }
}

/// Wraps the suspension points of each of `exprs`.
fn release_exprs(exprs: Vec<Expr>, hold: &String, cell: &String) -> (out: Vec<Expr>)
    ensures
        exprs_view(out) == exprs_released(exprs_view(exprs), hold@, cell@),
    decreases exprs, 0nat,
{
    let ghost views = exprs_view(exprs);
    let mut out: Vec<Expr> = Vec::new();
    for item in it: exprs
        invariant
            it.seq() == exprs@,
            views == exprs_view(exprs),
            out.len() == it.index(),
            forall|j: int|
                0 <= j < it.index() ==> (#[trigger] out[j])@ == expr_released(
                    views[j],
                    hold@,
                    cell@,
                ),
    {
        assert(item@ == views[it.index() as int]);
        out.push(release_expr(item, hold, cell));
    }
    assert(exprs_view(out) =~= exprs_released(views, hold@, cell@));
    out
}

/// Wraps the suspension points of a block.
pub fn release_block(block: Block, hold: &String, cell: &String) -> (out: Block)
    ensures
        out@ == block_released(block@, hold@, cell@),
    decreases block, 1nat,
{
    Block { stmts: release_stmts(block.stmts, hold, cell) }
}

/// Wraps the suspension points of each of `stmts`.
fn release_stmts(stmts: Vec<Stmt>, hold: &String, cell: &String) -> (out: Vec<Stmt>)
    ensures
        stmts_view(out) == stmts_released(stmts_view(stmts), hold@, cell@),
    decreases stmts, 0nat,
{
    let ghost views = stmts_view(stmts);
    let mut out: Vec<Stmt> = Vec::new();
    for item in it: stmts
        invariant
            it.seq() == stmts@,
            views == stmts_view(stmts),
            out.len() == it.index(),
            forall|j: int|
                0 <= j < it.index() ==> (#[trigger] out[j])@ == stmt_released(
                    views[j],
                    hold@,
                    cell@,
                ),
    {
        assert(item@ == views[it.index() as int]);
        out.push(release_stmt(item, hold, cell));
    }
    assert(stmts_view(out) =~= stmts_released(views, hold@, cell@));
    out
}

/// Wraps the suspension points of a statement.
fn release_stmt(stmt: Stmt, hold: &String, cell: &String) -> (out: Stmt)
    ensures
        out@ == stmt_released(stmt@, hold@, cell@),
    decreases stmt, 0nat,
{
    match stmt {
        Stmt::Local { attrs, pat, init, diverge } => {
            let init = release_opt(init, hold, cell);
            let diverge = release_opt(diverge, hold, cell);
            Stmt::Local { attrs, pat, init, diverge }
        },
        Stmt::Item(text) => Stmt::Item(text),
        Stmt::Expr { expr, semi } => Stmt::Expr { expr: release_expr(expr, hold, cell), semi },
    }
}

/// Wraps the suspension points of each of `arms`.
fn release_arms(arms: Vec<Arm>, hold: &String, cell: &String) -> (out: Vec<Arm>)
    ensures
        arms_view(out) == arms_released(arms_view(arms), hold@, cell@),
    decreases arms, 0nat,
{
    let ghost views = arms_view(arms);
    let mut out: Vec<Arm> = Vec::new();
    for item in it: arms
        invariant
            it.seq() == arms@,
            views == arms_view(arms),
            out.len() == it.index(),
            forall|j: int|
                0 <= j < it.index() ==> (#[trigger] out[j])@ == arm_released(
                    views[j],
                    hold@,
                    cell@,
                ),
    {
        assert(item@ == views[it.index() as int]);
        let Arm { attrs, pat, guard, body } = item;
        let guard = release_opt(guard, hold, cell);
        let body = release_expr(body, hold, cell);
        out.push(Arm { attrs, pat, guard, body });
    }
    assert(arms_view(out) =~= arms_released(views, hold@, cell@));
    out
}

/// Lets every block take hold of the cell `borrows_cell_name` under the name
/// `borrows_tuple_name` as its first statement, and give it free around each
/// of its suspension points.
pub fn replace_awaits(
    blocks: &mut Vec<Block>,
    borrows_tuple_name: &String,
    borrows_cell_name: &String,
)
    ensures
        blocks_view(*final(blocks)) == blocks_holding(
            blocks_view(*old(blocks)),
            borrows_tuple_name@,
            borrows_cell_name@,
        ),
        forall|i: int|
            0 <= i < final(blocks).len() ==> block_yielding(
                #[trigger] blocks_view(*final(blocks))[i],
                borrows_tuple_name@,
            ),
{
    let ghost views = blocks_view(*blocks);
    let mut taken: Vec<Block> = Vec::new();
    core::mem::swap(blocks, &mut taken);
    for block in it: taken
        invariant
            it.seq() == taken@,
            views == blocks_view(taken),
            blocks.len() == it.index(),
            forall|j: int|
                0 <= j < it.index() ==> (#[trigger] blocks[j])@ == block_holding(
                    views[j],
                    borrows_tuple_name@,
                    borrows_cell_name@,
                ),
    {
        assert(block@ == views[it.index() as int]);
        let released = release_block(block, borrows_tuple_name, borrows_cell_name);
        let ghost rest = released@.stmts;
        let mut stmts = released.stmts;
        let first = make_acquire_stmt(borrows_tuple_name, borrows_cell_name);
        let ghost first_view = first@;
        stmts.insert(0, first);
        assert(stmts_view(stmts) =~= seq![first_view] + rest);
        blocks.push(Block { stmts });
    }
    assert(blocks_view(*blocks) =~= blocks_holding(
        views,
        borrows_tuple_name@,
        borrows_cell_name@,
    ));
    assert forall|i: int| 0 <= i < blocks.len() implies block_yielding(
        #[trigger] blocks_view(*blocks)[i],
        borrows_tuple_name@,
    ) by {
        lemma_block_holding_yielding(views[i], borrows_tuple_name@, borrows_cell_name@);
    }
}

/// `::core::mem::drop(hold)`
pub open spec fn release_call(hold: Name) -> ExprView {
    call_of("::core::mem::drop"@, ExprView::Name(hold))
}

/// Whether `base` is of the form `(inner, { ::core::mem::drop(hold); }).0`:
/// the value of `inner`, with the hold given free after it was computed.
pub open spec fn gives_free(base: ExprView, hold: Name) -> bool {
    exists|inner: ExprView| base == #[trigger] first_of(inner, block_of(release_call(hold)))
}

/// The wrapped form of a suspension point suspends only where what it waits
/// for does, and with the hold given free.
proof fn lemma_suspended_yielding(base: ExprView, hold: Name, cell: Name)
    requires
        yielding(base, hold),
    ensures
        yielding(suspended(base, hold, cell), hold),
{
    assert(yielding(ExprView::Name(hold), hold));
    assert(yielding(ExprView::Name(cell), hold));
    assert(yielding(ExprView::Verbatim("::core::mem::drop"@), hold));
    assert(yielding(ExprView::Verbatim("::std::cell::RefCell::borrow_mut"@), hold));
    let release = release_call(hold);
    assert(yielding(release, hold)) by {
        assert(release->Call_args[0] == ExprView::Name(hold));
    }
    lemma_block_of_yielding(release, hold);
    let leaving = first_of(base, block_of(release));
    lemma_first_of_yielding(base, block_of(release), hold);
    let wait = ExprView::Await { base: Box::new(leaving) };
    assert(gives_free(leaving, hold));
    assert(yielding(wait, hold));
    let shared = ExprView::Reference { mutable: false, expr: Box::new(ExprView::Name(cell)) };
    assert(yielding(shared, hold));
    let acquire = acquire_call(cell);
    assert(yielding(acquire, hold)) by {
        assert(acquire->Call_args[0] == shared);
    }
    let assign = ExprView::Form {
        form: FormView::Assign,
        parts: seq![ExprView::Name(hold), acquire],
    };
    assert(yielding(assign, hold)) by {
        assert forall|i: int| 0 <= i < assign->Form_parts.len() implies yielding(
            #[trigger] assign->Form_parts[i],
            hold,
        ) by {
            if i == 0 {
                assert(assign->Form_parts[i] == ExprView::Name(hold));
            } else {
                assert(assign->Form_parts[i] == acquire);
            }
        }
    }
    lemma_block_of_yielding(assign, hold);
    lemma_first_of_yielding(wait, block_of(assign), hold);
}

/// The block `{ expr; }` suspends only where `expr` does.
proof fn lemma_block_of_yielding(expr: ExprView, hold: Name)
    requires
        yielding(expr, hold),
    ensures
        yielding(block_of(expr), hold),
{
    let stmt = StmtView::Expr { expr, semi: true };
    let block = BlockView { stmts: seq![stmt] };
    assert(stmt_yielding(stmt, hold));
    assert(block_yielding(block, hold)) by {
        assert forall|i: int| 0 <= i < block.stmts.len() implies stmt_yielding(
            #[trigger] block.stmts[i],
            hold,
        ) by {
            assert(block.stmts[i] == stmt);
        }
    }
}

/// `(first, second).0` suspends only where its parts do.
proof fn lemma_first_of_yielding(first: ExprView, second: ExprView, hold: Name)
    requires
        yielding(first, hold),
        yielding(second, hold),
    ensures
        yielding(first_of(first, second), hold),
{
    let tuple = ExprView::Form { form: FormView::Tuple, parts: seq![first, second] };
    assert(yielding(tuple, hold)) by {
        assert forall|i: int| 0 <= i < tuple->Form_parts.len() implies yielding(
            #[trigger] tuple->Form_parts[i],
            hold,
        ) by {
            if i == 0 {
                assert(tuple->Form_parts[i] == first);
            } else {
                assert(tuple->Form_parts[i] == second);
            }
        }
    }
}

/// Whether the expression never suspends while it holds the cell: what each
/// `.await` waits for gives the hold free as the last thing before the
/// suspension. Closures and `async` blocks are not entered.
pub open spec fn yielding(expr: ExprView, hold: Name) -> bool
    decreases expr, 0nat,
{
    match expr {
        ExprView::Name(name) => true,
        ExprView::Verbatim(text) => true,
        ExprView::Field { base, member } => yielding(*base, hold),
        ExprView::Reference { mutable, expr: target } => yielding(*target, hold),
        ExprView::Call { func, args } => {
            &&& yielding(*func, hold)
            &&& forall|i: int| 0 <= i < args.len() ==> yielding(#[trigger] args[i], hold)
        },
        ExprView::Form { form, parts } => forall|i: int|
            0 <= i < parts.len() ==> yielding(#[trigger] parts[i], hold),
        ExprView::Let { pat, expr: scrutinee } => yielding(*scrutinee, hold),
        ExprView::If { cond, then_branch, else_branch } => {
            &&& yielding(*cond, hold)
            &&& block_yielding(then_branch, hold)
            &&& else_branch matches Some(inner) ==> yielding(*inner, hold)
        },
        ExprView::While { label, cond, body } => {
            &&& yielding(*cond, hold)
            &&& block_yielding(body, hold)
        },
        ExprView::ForLoop { label, pat, expr: iter, body } => {
            &&& yielding(*iter, hold)
            &&& block_yielding(body, hold)
        },
        ExprView::Loop { label, body } => block_yielding(body, hold),
        ExprView::Block { label, block } => block_yielding(block, hold),
        ExprView::Match { expr: scrutinee, arms } => {
            &&& yielding(*scrutinee, hold)
            &&& forall|i: int| 0 <= i < arms.len() ==> arm_yielding(#[trigger] arms[i], hold)
        },
        ExprView::Closure { prefix, inputs, output, expr: body } => true,
        ExprView::Async { capture, block } => true,
        ExprView::TryBlock { block } => block_yielding(block, hold),
        ExprView::Await { base } => {
            &&& gives_free(*base, hold)
            &&& yielding(*base, hold)
        },
        ExprView::Try { expr: inner } => yielding(*inner, hold),
        ExprView::Break { label, value } => value matches Some(inner) ==> yielding(*inner, hold),
        ExprView::Continue { label } => true,
        ExprView::Return { value } => value matches Some(inner) ==> yielding(*inner, hold),
    }
}

/// Whether the block never suspends while it holds the cell.
pub open spec fn block_yielding(block: BlockView, hold: Name) -> bool
    decreases block, 0nat,
{
    forall|i: int| 0 <= i < block.stmts.len() ==> stmt_yielding(#[trigger] block.stmts[i], hold)
}

/// Whether the statement never suspends while it holds the cell.
pub open spec fn stmt_yielding(stmt: StmtView, hold: Name) -> bool
    decreases stmt, 0nat,
{
    match stmt {
        StmtView::Local { attrs, pat, init, diverge } => {
            &&& init matches Some(inner) ==> yielding(inner, hold)
            &&& diverge matches Some(inner) ==> yielding(inner, hold)
        },
        StmtView::Item(text) => true,
        StmtView::Expr { expr, semi } => yielding(expr, hold),
    }
}

/// Whether the match arm never suspends while it holds the cell.
pub open spec fn arm_yielding(arm: ArmView, hold: Name) -> bool
    decreases arm, 0nat,
{
    &&& arm.guard matches Some(inner) ==> yielding(inner, hold)
    &&& yielding(arm.body, hold)
}

/// Once the suspension points are wrapped, the expression never suspends
/// while it holds the cell.
pub proof fn lemma_released_yielding(expr: ExprView, hold: Name, cell: Name)
    ensures
        yielding(expr_released(expr, hold, cell), hold),
    decreases expr, 0nat,
{
    match expr {
        ExprView::Name(name) => {},
        ExprView::Verbatim(text) => {},
        ExprView::Field { base, member } => {
            lemma_released_yielding(*base, hold, cell);
            assert(yielding(expr_released(expr, hold, cell), hold));
        },
        ExprView::Reference { mutable, expr: target } => {
            lemma_released_yielding(*target, hold, cell);
            assert(yielding(expr_released(expr, hold, cell), hold));
        },
        ExprView::Call { func, args } => {
            lemma_released_yielding(*func, hold, cell);
            assert forall|i: int| 0 <= i < args.len() implies yielding(
                #[trigger] exprs_released(args, hold, cell)[i],
                hold,
            ) by {
                lemma_released_yielding(args[i], hold, cell);
                assert(exprs_released(args, hold, cell)[i] == expr_released(args[i], hold, cell));
            }
            assert(yielding(expr_released(expr, hold, cell), hold));
        },
        ExprView::Form { form, parts } => {
            assert forall|i: int| 0 <= i < parts.len() implies yielding(
                #[trigger] exprs_released(parts, hold, cell)[i],
                hold,
            ) by {
                lemma_released_yielding(parts[i], hold, cell);
                assert(exprs_released(parts, hold, cell)[i] == expr_released(parts[i], hold, cell));
            }
            assert(yielding(expr_released(expr, hold, cell), hold));
        },
        ExprView::Let { pat, expr: scrutinee } => {
            lemma_released_yielding(*scrutinee, hold, cell);
            assert(yielding(expr_released(expr, hold, cell), hold));
        },
        ExprView::If { cond, then_branch, else_branch } => {
            lemma_released_yielding(*cond, hold, cell);
            lemma_block_released_yielding(then_branch, hold, cell);
            match else_branch {
                Some(inner) => {
                    lemma_released_yielding(*inner, hold, cell);
                    assert(opt_box_released(else_branch, hold, cell)
                        == Some(Box::new(expr_released(*inner, hold, cell))));
                },
                None => {
                    assert(opt_box_released(else_branch, hold, cell) is None);
                },
            }
            assert(yielding(expr_released(expr, hold, cell), hold));
        },
        ExprView::While { label, cond, body } => {
            lemma_released_yielding(*cond, hold, cell);
            lemma_block_released_yielding(body, hold, cell);
            assert(yielding(expr_released(expr, hold, cell), hold));
        },
        ExprView::ForLoop { label, pat, expr: iter, body } => {
            lemma_released_yielding(*iter, hold, cell);
            lemma_block_released_yielding(body, hold, cell);
            assert(yielding(expr_released(expr, hold, cell), hold));
        },
        ExprView::Loop { label, body } => {
            lemma_block_released_yielding(body, hold, cell);
            assert(yielding(expr_released(expr, hold, cell), hold));
        },
        ExprView::Block { label, block } => {
            lemma_block_released_yielding(block, hold, cell);
            assert(yielding(expr_released(expr, hold, cell), hold));
        },
        ExprView::Match { expr: scrutinee, arms } => {
            lemma_released_yielding(*scrutinee, hold, cell);
            assert forall|i: int| 0 <= i < arms.len() implies arm_yielding(
                #[trigger] arms_released(arms, hold, cell)[i],
                hold,
            ) by {
                match arms[i].guard {
                    Some(guard) => {
                        lemma_released_yielding(guard, hold, cell);
                    },
                    None => {},
                }
                lemma_released_yielding(arms[i].body, hold, cell);
                assert(arms_released(arms, hold, cell)[i] == arm_released(arms[i], hold, cell));
            }
            assert(yielding(expr_released(expr, hold, cell), hold));
        },
        ExprView::Closure { prefix, inputs, output, expr: body } => {},
        ExprView::Async { capture, block } => {},
        ExprView::TryBlock { block } => {
            lemma_block_released_yielding(block, hold, cell);
            assert(yielding(expr_released(expr, hold, cell), hold));
        },
        ExprView::Await { base } => {
            lemma_released_yielding(*base, hold, cell);
            lemma_suspended_yielding(expr_released(*base, hold, cell), hold, cell);
            assert(yielding(expr_released(expr, hold, cell), hold));
        },
        ExprView::Try { expr: inner } => {
            lemma_released_yielding(*inner, hold, cell);
            assert(yielding(expr_released(expr, hold, cell), hold));
        },
        ExprView::Break { label, value } => {
            match value {
                Some(inner) => {
                    lemma_released_yielding(*inner, hold, cell);
                    assert(opt_box_released(value, hold, cell)
                        == Some(Box::new(expr_released(*inner, hold, cell))));
                },
                None => {
                    assert(opt_box_released(value, hold, cell) is None);
                },
            }
            assert(yielding(expr_released(expr, hold, cell), hold));
        },
        ExprView::Continue { label } => {},
        ExprView::Return { value } => {
            match value {
                Some(inner) => {
                    lemma_released_yielding(*inner, hold, cell);
                    assert(opt_box_released(value, hold, cell)
                        == Some(Box::new(expr_released(*inner, hold, cell))));
                },
                None => {
                    assert(opt_box_released(value, hold, cell) is None);
                },
            }
            assert(yielding(expr_released(expr, hold, cell), hold));
        },
    }
}

/// Once the suspension points of a block are wrapped, the block never
/// suspends while it holds the cell.
pub proof fn lemma_block_released_yielding(block: BlockView, hold: Name, cell: Name)
    ensures
        block_yielding(block_released(block, hold, cell), hold),
    decreases block, 0nat,
{
    let turned = block_released(block, hold, cell);
    assert forall|i: int| 0 <= i < turned.stmts.len() implies stmt_yielding(
        #[trigger] turned.stmts[i],
        hold,
    ) by {
        lemma_stmt_released_yielding(block.stmts[i], hold, cell);
    }
}

/// Once the suspension points of a statement are wrapped, the statement never
/// suspends while it holds the cell.
proof fn lemma_stmt_released_yielding(stmt: StmtView, hold: Name, cell: Name)
    ensures
        stmt_yielding(stmt_released(stmt, hold, cell), hold),
    decreases stmt, 0nat,
{
    match stmt {
        StmtView::Local { attrs, pat, init, diverge } => {
            match init {
                Some(inner) => {
                    lemma_released_yielding(inner, hold, cell);
                },
                None => {},
            }
            match diverge {
                Some(inner) => {
                    lemma_released_yielding(inner, hold, cell);
                },
                None => {},
            }
        },
        StmtView::Item(text) => {},
        StmtView::Expr { expr, semi } => {
            lemma_released_yielding(expr, hold, cell);
        },
    }
}

/// A block that holds the cell from its first statement on and gives it free
/// around its suspension points never suspends while it holds the cell.
pub proof fn lemma_block_holding_yielding(block: BlockView, hold: Name, cell: Name)
    ensures
        block_yielding(block_holding(block, hold, cell), hold),
{
    let released = block_released(block, hold, cell);
    lemma_block_released_yielding(block, hold, cell);
    assert(yielding(ExprView::Name(cell), hold));
    let shared = ExprView::Reference { mutable: false, expr: Box::new(ExprView::Name(cell)) };
    assert(yielding(shared, hold));
    assert(yielding(ExprView::Verbatim("::std::cell::RefCell::borrow_mut"@), hold));
    let acquire = acquire_call(cell);
    assert(yielding(acquire, hold)) by {
        assert forall|i: int| 0 <= i < acquire->Call_args.len() implies yielding(
            #[trigger] acquire->Call_args[i],
            hold,
        ) by {
            assert(acquire->Call_args[i] == shared);
        }
    }
    assert(stmt_yielding(acquire_stmt(hold, cell), hold));
    let whole = block_holding(block, hold, cell);
    assert forall|i: int| 0 <= i < whole.stmts.len() implies stmt_yielding(
        #[trigger] whole.stmts[i],
        hold,
    ) by {
        if i == 0 {
            assert(whole.stmts[i] == acquire_stmt(hold, cell));
        } else {
            assert(whole.stmts[i] == released.stmts[i - 1]);
            assert(stmt_yielding(released.stmts[i - 1], hold));
        }
    }
}

} // verus!
