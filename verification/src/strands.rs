//! What holds of every strand of an expansion, whatever the blocks were.
//!
//! A strand runs as a computation of its own, so nothing in it may still
//! reach outside: no fallible step is left implicit, no `break` or
//! `continue` leaves the block, and a strand that holds the cell never
//! suspends while it does. Each pass establishes one of these, and the
//! passes that follow it keep it.

use crate::awaits::{
    acquire_call, acquire_stmt, arm_released, arms_released, block_of, block_released,
    block_yielding,
    expr_released, exprs_released, first_of, lemma_block_holding_yielding, opt_box_released,
    stmt_released, suspended,
};
use crate::breaks::{
    arm_escaped, arm_settled, arms_escaped, block_escaped, block_settled, blocks_escaped,
    escaping, expr_escaped, exprs_escaped, inside, lemma_block_escaped_settled, opt_box_escaped,
    settled, stmt_escaped, stmt_settled, unit, variant_name_of, EscapeView, ScopeView,
};
use crate::expand::{cell_name, expanded, hold_name, output_name, private_name, shared, stepped};
use crate::path::CaptureView;
use crate::syntax::{ArmView, BlockView, ExprView, FormView, Name, StmtView};
use crate::trys::{
    arm_explicit, block_explicit, call_of, explicit, lemma_block_desugared_explicit,
    stmt_explicit,
};
use vstd::prelude::*;

verus! {

/// The call `path(arg)` holds an implicit fallible step only where `arg` does.
proof fn lemma_call_explicit(path: Seq<char>, arg: ExprView, in_try: bool)
    requires
        explicit(arg, in_try),
    ensures
        explicit(call_of(path, arg), in_try),
{
    assert(explicit(ExprView::Verbatim(path), in_try));
    let call = call_of(path, arg);
    assert forall|i: int| 0 <= i < call->Call_args.len() implies explicit(
        #[trigger] call->Call_args[i],
        in_try,
    ) by {
        assert(call->Call_args[i] == arg);
    }
}

/// The block `{ expr; }` holds an implicit fallible step only where `expr` does.
proof fn lemma_block_of_explicit(expr: ExprView, in_try: bool)
    requires
        explicit(expr, in_try),
    ensures
        explicit(block_of(expr), in_try),
{
    let stmt = StmtView::Expr { expr, semi: true };
    let block = BlockView { stmts: seq![stmt] };
    assert(stmt_explicit(stmt, in_try));
    assert(block_explicit(block, in_try)) by {
        assert forall|i: int| 0 <= i < block.stmts.len() implies stmt_explicit(
            #[trigger] block.stmts[i],
            in_try,
        ) by {
            assert(block.stmts[i] == stmt);
        }
    }
}

/// `(first, second).0` holds an implicit fallible step only where its parts do.
proof fn lemma_first_of_explicit(first: ExprView, second: ExprView, in_try: bool)
    requires
        explicit(first, in_try),
        explicit(second, in_try),
    ensures
        explicit(first_of(first, second), in_try),
{
    let tuple = ExprView::Form { form: FormView::Tuple, parts: seq![first, second] };
    assert(explicit(tuple, in_try)) by {
        assert forall|i: int| 0 <= i < tuple->Form_parts.len() implies explicit(
            #[trigger] tuple->Form_parts[i],
            in_try,
        ) by {
            if i == 0 {
                assert(tuple->Form_parts[i] == first);
            } else {
                assert(tuple->Form_parts[i] == second);
            }
        }
    }
}

/// The wrapped form of a suspension point holds an implicit fallible step only where what it waits
/// for does.
proof fn lemma_suspended_explicit(base: ExprView, in_try: bool, hold: Name, cell: Name)
    requires
        explicit(base, in_try),
    ensures
        explicit(suspended(base, hold, cell), in_try),
{
    assert(explicit(ExprView::Name(hold), in_try));
    assert(explicit(ExprView::Name(cell), in_try));
    lemma_call_explicit("::core::mem::drop"@, ExprView::Name(hold), in_try);
    let release = call_of("::core::mem::drop"@, ExprView::Name(hold));
    lemma_block_of_explicit(release, in_try);
    let leaving = first_of(base, block_of(release));
    lemma_first_of_explicit(base, block_of(release), in_try);
    let wait = ExprView::Await { base: Box::new(leaving) };
    assert(explicit(wait, in_try));
    let shared = ExprView::Reference { mutable: false, expr: Box::new(ExprView::Name(cell)) };
    assert(explicit(shared, in_try));
    lemma_call_explicit("::std::cell::RefCell::borrow_mut"@, shared, in_try);
    let acquire = acquire_call(cell);
    let assign = ExprView::Form {
        form: FormView::Assign,
        parts: seq![ExprView::Name(hold), acquire],
    };
    assert(explicit(assign, in_try)) by {
        assert forall|i: int| 0 <= i < assign->Form_parts.len() implies explicit(
            #[trigger] assign->Form_parts[i],
            in_try,
        ) by {
            if i == 0 {
                assert(assign->Form_parts[i] == ExprView::Name(hold));
            } else {
                assert(assign->Form_parts[i] == acquire);
            }
        }
    }
    lemma_block_of_explicit(assign, in_try);
    lemma_first_of_explicit(wait, block_of(assign), in_try);
}

/// A block that takes hold of the cell as its first statement holds an implicit fallible step only
/// where the block without that statement does.
proof fn lemma_holding_explicit(block: BlockView, in_try: bool, hold: Name, cell: Name)
    requires
        block_explicit(block, in_try),
    ensures
        block_explicit(
            BlockView { stmts: seq![acquire_stmt(hold, cell)] + block.stmts },
            in_try,
        ),
{
    assert(explicit(ExprView::Name(cell), in_try));
    let shared = ExprView::Reference { mutable: false, expr: Box::new(ExprView::Name(cell)) };
    assert(explicit(shared, in_try));
    lemma_call_explicit("::std::cell::RefCell::borrow_mut"@, shared, in_try);
    assert(stmt_explicit(acquire_stmt(hold, cell), in_try));
    let whole = BlockView { stmts: seq![acquire_stmt(hold, cell)] + block.stmts };
    assert forall|i: int| 0 <= i < whole.stmts.len() implies stmt_explicit(
        #[trigger] whole.stmts[i],
        in_try,
    ) by {
        if i == 0 {
            assert(whole.stmts[i] == acquire_stmt(hold, cell));
        } else {
            assert(whole.stmts[i] == block.stmts[i - 1]);
            assert(stmt_explicit(block.stmts[i - 1], in_try));
        }
    }
}

/// The call `path(arg)` lets an exit leave the block only where `arg` does.
proof fn lemma_call_settled(path: Seq<char>, arg: ExprView, scopes: Seq<ScopeView>)
    requires
        settled(arg, scopes),
    ensures
        settled(call_of(path, arg), scopes),
{
    assert(settled(ExprView::Verbatim(path), scopes));
    let call = call_of(path, arg);
    assert forall|i: int| 0 <= i < call->Call_args.len() implies settled(
        #[trigger] call->Call_args[i],
        scopes,
    ) by {
        assert(call->Call_args[i] == arg);
    }
}

/// The block `{ expr; }` lets an exit leave the block only where `expr` does.
proof fn lemma_block_of_settled(expr: ExprView, scopes: Seq<ScopeView>)
    requires
        settled(expr, scopes),
    ensures
        settled(block_of(expr), scopes),
{
    let stmt = StmtView::Expr { expr, semi: true };
    let block = BlockView { stmts: seq![stmt] };
    assert(stmt_settled(stmt, scopes));
    assert(block_settled(block, scopes)) by {
        assert forall|i: int| 0 <= i < block.stmts.len() implies stmt_settled(
            #[trigger] block.stmts[i],
            scopes,
        ) by {
            assert(block.stmts[i] == stmt);
        }
    }
}

/// `(first, second).0` lets an exit leave the block only where its parts do.
proof fn lemma_first_of_settled(first: ExprView, second: ExprView, scopes: Seq<ScopeView>)
    requires
        settled(first, scopes),
        settled(second, scopes),
    ensures
        settled(first_of(first, second), scopes),
{
    let tuple = ExprView::Form { form: FormView::Tuple, parts: seq![first, second] };
    assert(settled(tuple, scopes)) by {
        assert forall|i: int| 0 <= i < tuple->Form_parts.len() implies settled(
            #[trigger] tuple->Form_parts[i],
            scopes,
        ) by {
            if i == 0 {
                assert(tuple->Form_parts[i] == first);
            } else {
                assert(tuple->Form_parts[i] == second);
            }
        }
    }
}

/// The wrapped form of a suspension point lets an exit leave the block only where what it waits
/// for does.
proof fn lemma_suspended_settled(base: ExprView, scopes: Seq<ScopeView>, hold: Name, cell: Name)
    requires
        settled(base, scopes),
    ensures
        settled(suspended(base, hold, cell), scopes),
{
    assert(settled(ExprView::Name(hold), scopes));
    assert(settled(ExprView::Name(cell), scopes));
    lemma_call_settled("::core::mem::drop"@, ExprView::Name(hold), scopes);
    let release = call_of("::core::mem::drop"@, ExprView::Name(hold));
    lemma_block_of_settled(release, scopes);
    let leaving = first_of(base, block_of(release));
    lemma_first_of_settled(base, block_of(release), scopes);
    let wait = ExprView::Await { base: Box::new(leaving) };
    assert(settled(wait, scopes));
    let shared = ExprView::Reference { mutable: false, expr: Box::new(ExprView::Name(cell)) };
    assert(settled(shared, scopes));
    lemma_call_settled("::std::cell::RefCell::borrow_mut"@, shared, scopes);
    let acquire = acquire_call(cell);
    let assign = ExprView::Form {
        form: FormView::Assign,
        parts: seq![ExprView::Name(hold), acquire],
    };
    assert(settled(assign, scopes)) by {
        assert forall|i: int| 0 <= i < assign->Form_parts.len() implies settled(
            #[trigger] assign->Form_parts[i],
            scopes,
        ) by {
            if i == 0 {
                assert(assign->Form_parts[i] == ExprView::Name(hold));
            } else {
                assert(assign->Form_parts[i] == acquire);
            }
        }
    }
    lemma_block_of_settled(assign, scopes);
    lemma_first_of_settled(wait, block_of(assign), scopes);
}

/// A block that takes hold of the cell as its first statement lets an exit leave the block only
/// where the block without that statement does.
proof fn lemma_holding_settled(block: BlockView, scopes: Seq<ScopeView>, hold: Name, cell: Name)
    requires
        block_settled(block, scopes),
    ensures
        block_settled(
            BlockView { stmts: seq![acquire_stmt(hold, cell)] + block.stmts },
            scopes,
        ),
{
    assert(settled(ExprView::Name(cell), scopes));
    let shared = ExprView::Reference { mutable: false, expr: Box::new(ExprView::Name(cell)) };
    assert(settled(shared, scopes));
    lemma_call_settled("::std::cell::RefCell::borrow_mut"@, shared, scopes);
    assert(stmt_settled(acquire_stmt(hold, cell), scopes));
    let whole = BlockView { stmts: seq![acquire_stmt(hold, cell)] + block.stmts };
    assert forall|i: int| 0 <= i < whole.stmts.len() implies stmt_settled(
        #[trigger] whole.stmts[i],
        scopes,
    ) by {
        if i == 0 {
            assert(whole.stmts[i] == acquire_stmt(hold, cell));
        } else {
            assert(whole.stmts[i] == block.stmts[i - 1]);
            assert(stmt_settled(block.stmts[i - 1], scopes));
        }
    }
}

/// The return that an exit becomes holds an implicit fallible step only where
/// its payload does.
proof fn lemma_escaping_explicit(
    escape: EscapeView,
    value: Option<Box<ExprView>>,
    in_try: bool,
    output: Name,
    prefix: Name,
)
    requires
        value matches Some(inner) ==> explicit(*inner, in_try),
    ensures
        explicit(escaping(escape, value, output, prefix), in_try),
{
    let payload = match value {
        Some(inner) => *inner,
        None => unit(),
    };
    assert(explicit(unit(), in_try));
    let func = ExprView::Verbatim(output + "::"@ + variant_name_of(escape, prefix));
    assert(explicit(func, in_try));
    let call = ExprView::Call { func: Box::new(func), args: seq![payload] };
    assert(explicit(call, in_try)) by {
        assert(call->Call_args[0] == payload);
    }
    assert(escaping(escape, value, output, prefix) == ExprView::Return {
        value: Some(Box::new(call)),
    });
}

/// Turning the exits of an expression leaves no fallible step implicit that
/// was explicit.
pub proof fn lemma_escaped_explicit(
    expr: ExprView,
    in_try: bool,
    scopes: Seq<ScopeView>,
    output: Name,
    prefix: Name,
)
    requires
        explicit(expr, in_try),
    ensures
        explicit(expr_escaped(expr, scopes, output, prefix), in_try),
    decreases expr, 0nat,
{
    match expr {
        ExprView::Name(name) => {},
        ExprView::Verbatim(text) => {},
        ExprView::Field { base, member } => {
            lemma_escaped_explicit(*base, in_try, scopes, output, prefix);
            assert(explicit(expr_escaped(expr, scopes, output, prefix), in_try));
        },
        ExprView::Reference { mutable, expr: target } => {
            lemma_escaped_explicit(*target, in_try, scopes, output, prefix);
            assert(explicit(expr_escaped(expr, scopes, output, prefix), in_try));
        },
        ExprView::Call { func, args } => {
            lemma_escaped_explicit(*func, in_try, scopes, output, prefix);
            assert forall|i: int| 0 <= i < args.len() implies explicit(
                #[trigger] exprs_escaped(args, scopes, output, prefix)[i],
                in_try,
            ) by {
                assert(explicit(args[i], in_try));
                lemma_escaped_explicit(args[i], in_try, scopes, output, prefix);
                assert(exprs_escaped(args, scopes, output, prefix)[i]
                    == expr_escaped(args[i], scopes, output, prefix));
            }
            assert(explicit(expr_escaped(expr, scopes, output, prefix), in_try));
        },
        ExprView::Form { form, parts } => {
            assert forall|i: int| 0 <= i < parts.len() implies explicit(
                #[trigger] exprs_escaped(parts, scopes, output, prefix)[i],
                in_try,
            ) by {
                assert(explicit(parts[i], in_try));
                lemma_escaped_explicit(parts[i], in_try, scopes, output, prefix);
                assert(exprs_escaped(parts, scopes, output, prefix)[i]
                    == expr_escaped(parts[i], scopes, output, prefix));
            }
            assert(explicit(expr_escaped(expr, scopes, output, prefix), in_try));
        },
        ExprView::Let { pat, expr: scrutinee } => {
            lemma_escaped_explicit(*scrutinee, in_try, scopes, output, prefix);
            assert(explicit(expr_escaped(expr, scopes, output, prefix), in_try));
        },
        ExprView::If { cond, then_branch, else_branch } => {
            lemma_escaped_explicit(*cond, in_try, scopes, output, prefix);
            lemma_block_escaped_explicit(then_branch, in_try, scopes, output, prefix);
            match else_branch {
                Some(inner) => {
                    lemma_escaped_explicit(*inner, in_try, scopes, output, prefix);
                    assert(opt_box_escaped(else_branch, scopes, output, prefix)
                        == Some(Box::new(expr_escaped(*inner, scopes, output, prefix))));
                },
                None => {
                    assert(opt_box_escaped(else_branch, scopes, output, prefix) is None);
                },
            }
            assert(explicit(expr_escaped(expr, scopes, output, prefix), in_try));
        },
        ExprView::While { label, cond, body } => {
            lemma_escaped_explicit(*cond, in_try, inside(scopes, label, true), output, prefix);
            lemma_block_escaped_explicit(body, in_try, inside(scopes, label, true), output, prefix);
            assert(explicit(expr_escaped(expr, scopes, output, prefix), in_try));
        },
        ExprView::ForLoop { label, pat, expr: iter, body } => {
            lemma_escaped_explicit(*iter, in_try, inside(scopes, label, true), output, prefix);
            lemma_block_escaped_explicit(body, in_try, inside(scopes, label, true), output, prefix);
            assert(explicit(expr_escaped(expr, scopes, output, prefix), in_try));
        },
        ExprView::Loop { label, body } => {
            lemma_block_escaped_explicit(body, in_try, inside(scopes, label, true), output, prefix);
            assert(explicit(expr_escaped(expr, scopes, output, prefix), in_try));
        },
        ExprView::Block { label, block } => {
            lemma_block_escaped_explicit(
                block,
                in_try,
                inside(scopes,
                label,
                false),
                output,
                prefix,
            );
            assert(explicit(expr_escaped(expr, scopes, output, prefix), in_try));
        },
        ExprView::Match { expr: scrutinee, arms } => {
            lemma_escaped_explicit(*scrutinee, in_try, scopes, output, prefix);
            assert forall|i: int| 0 <= i < arms.len() implies arm_explicit(
                #[trigger] arms_escaped(arms, scopes, output, prefix)[i],
                in_try,
            ) by {
                assert(arm_explicit(arms[i], in_try));
                match arms[i].guard {
                    Some(guard) => {
                        lemma_escaped_explicit(guard, in_try, scopes, output, prefix);
                    },
                    None => {},
                }
                lemma_escaped_explicit(arms[i].body, in_try, scopes, output, prefix);
                assert(arms_escaped(arms, scopes, output, prefix)[i]
                    == arm_escaped(arms[i], scopes, output, prefix));
            }
            assert(explicit(expr_escaped(expr, scopes, output, prefix), in_try));
        },
        ExprView::Closure { prefix: head, inputs, output: result, expr: body } => {},
        ExprView::Async { capture, block } => {},
        ExprView::TryBlock { block } => {
            lemma_block_escaped_explicit(block, true, scopes, output, prefix);
            assert(explicit(expr_escaped(expr, scopes, output, prefix), in_try));
        },
        ExprView::Await { base } => {
            lemma_escaped_explicit(*base, in_try, scopes, output, prefix);
            assert(explicit(expr_escaped(expr, scopes, output, prefix), in_try));
        },
        ExprView::Try { expr: inner } => {
            lemma_escaped_explicit(*inner, in_try, scopes, output, prefix);
            assert(explicit(expr_escaped(expr, scopes, output, prefix), in_try));
        },
        ExprView::Break { label, value } => {
            match value {
                Some(inner) => {
                    lemma_escaped_explicit(*inner, in_try, scopes, output, prefix);
                    assert(opt_box_escaped(value, scopes, output, prefix)
                        == Some(Box::new(expr_escaped(*inner, scopes, output, prefix))));
                },
                None => {
                    assert(opt_box_escaped(value, scopes, output, prefix) is None);
                },
            }
            lemma_escaping_explicit(
                EscapeView::Break(label),
                opt_box_escaped(value, scopes, output, prefix),
                in_try,
                output,
                prefix,
            );
            assert(explicit(expr_escaped(expr, scopes, output, prefix), in_try));
        },
        ExprView::Continue { label } => {
            lemma_escaping_explicit(EscapeView::Continue(label), None, in_try, output, prefix);
            assert(explicit(expr_escaped(expr, scopes, output, prefix), in_try));
        },
        ExprView::Return { value } => {
            match value {
                Some(inner) => {
                    lemma_escaped_explicit(*inner, in_try, scopes, output, prefix);
                    assert(opt_box_escaped(value, scopes, output, prefix)
                        == Some(Box::new(expr_escaped(*inner, scopes, output, prefix))));
                },
                None => {
                    assert(opt_box_escaped(value, scopes, output, prefix) is None);
                },
            }
            lemma_escaping_explicit(
                EscapeView::Return,
                opt_box_escaped(value, scopes, output, prefix),
                in_try,
                output,
                prefix,
            );
            assert(explicit(expr_escaped(expr, scopes, output, prefix), in_try));
        },
    }
}

/// Turning the exits of a block leaves no fallible step implicit that was
/// explicit.
pub proof fn lemma_block_escaped_explicit(
    block: BlockView,
    in_try: bool,
    scopes: Seq<ScopeView>,
    output: Name,
    prefix: Name,
)
    requires
        block_explicit(block, in_try),
    ensures
        block_explicit(block_escaped(block, scopes, output, prefix), in_try),
    decreases block, 0nat,
{
    let turned = block_escaped(block, scopes, output, prefix);
    assert forall|i: int| 0 <= i < turned.stmts.len() implies stmt_explicit(
        #[trigger] turned.stmts[i],
        in_try,
    ) by {
        assert(stmt_explicit(block.stmts[i], in_try));
        lemma_stmt_escaped_explicit(block.stmts[i], in_try, scopes, output, prefix);
    }
}

/// Turning the exits of a statement leaves no fallible step implicit that was
/// explicit.
proof fn lemma_stmt_escaped_explicit(
    stmt: StmtView,
    in_try: bool,
    scopes: Seq<ScopeView>,
    output: Name,
    prefix: Name,
)
    requires
        stmt_explicit(stmt, in_try),
    ensures
        stmt_explicit(stmt_escaped(stmt, scopes, output, prefix), in_try),
    decreases stmt, 0nat,
{
    match stmt {
        StmtView::Local { attrs, pat, init, diverge } => {
            match init {
                Some(inner) => {
                    lemma_escaped_explicit(inner, in_try, scopes, output, prefix);
                },
                None => {},
            }
            match diverge {
                Some(inner) => {
                    lemma_escaped_explicit(inner, in_try, scopes, output, prefix);
                },
                None => {},
            }
        },
        StmtView::Item(text) => {},
        StmtView::Expr { expr, semi } => {
            lemma_escaped_explicit(expr, in_try, scopes, output, prefix);
        },
    }
}

/// Wrapping the suspension points of an expression leaves no fallible step
/// implicit that was explicit.
pub proof fn lemma_released_explicit(expr: ExprView, in_try: bool, hold: Name, cell: Name)
    requires
        explicit(expr, in_try),
    ensures
        explicit(expr_released(expr, hold, cell), in_try),
    decreases expr, 0nat,
{
    match expr {
        ExprView::Name(name) => {},
        ExprView::Verbatim(text) => {},
        ExprView::Field { base, member } => {
            lemma_released_explicit(*base, in_try, hold, cell);
            assert(explicit(expr_released(expr, hold, cell), in_try));
        },
        ExprView::Reference { mutable, expr: target } => {
            lemma_released_explicit(*target, in_try, hold, cell);
            assert(explicit(expr_released(expr, hold, cell), in_try));
        },
        ExprView::Call { func, args } => {
            lemma_released_explicit(*func, in_try, hold, cell);
            assert forall|i: int| 0 <= i < args.len() implies explicit(
                #[trigger] exprs_released(args, hold, cell)[i],
                in_try,
            ) by {
                assert(explicit(args[i], in_try));
                lemma_released_explicit(args[i], in_try, hold, cell);
                assert(exprs_released(args, hold, cell)[i] == expr_released(args[i], hold, cell));
            }
            assert(explicit(expr_released(expr, hold, cell), in_try));
        },
        ExprView::Form { form, parts } => {
            assert forall|i: int| 0 <= i < parts.len() implies explicit(
                #[trigger] exprs_released(parts, hold, cell)[i],
                in_try,
            ) by {
                assert(explicit(parts[i], in_try));
                lemma_released_explicit(parts[i], in_try, hold, cell);
                assert(exprs_released(parts, hold, cell)[i] == expr_released(parts[i], hold, cell));
            }
            assert(explicit(expr_released(expr, hold, cell), in_try));
        },
        ExprView::Let { pat, expr: scrutinee } => {
            lemma_released_explicit(*scrutinee, in_try, hold, cell);
            assert(explicit(expr_released(expr, hold, cell), in_try));
        },
        ExprView::If { cond, then_branch, else_branch } => {
            lemma_released_explicit(*cond, in_try, hold, cell);
            lemma_block_released_explicit(then_branch, in_try, hold, cell);
            match else_branch {
                Some(inner) => {
                    lemma_released_explicit(*inner, in_try, hold, cell);
                    assert(opt_box_released(else_branch, hold, cell)
                        == Some(Box::new(expr_released(*inner, hold, cell))));
                },
                None => {
                    assert(opt_box_released(else_branch, hold, cell) is None);
                },
            }
            assert(explicit(expr_released(expr, hold, cell), in_try));
        },
        ExprView::While { label, cond, body } => {
            lemma_released_explicit(*cond, in_try, hold, cell);
            lemma_block_released_explicit(body, in_try, hold, cell);
            assert(explicit(expr_released(expr, hold, cell), in_try));
        },
        ExprView::ForLoop { label, pat, expr: iter, body } => {
            lemma_released_explicit(*iter, in_try, hold, cell);
            lemma_block_released_explicit(body, in_try, hold, cell);
            assert(explicit(expr_released(expr, hold, cell), in_try));
        },
        ExprView::Loop { label, body } => {
            lemma_block_released_explicit(body, in_try, hold, cell);
            assert(explicit(expr_released(expr, hold, cell), in_try));
        },
        ExprView::Block { label, block } => {
            lemma_block_released_explicit(block, in_try, hold, cell);
            assert(explicit(expr_released(expr, hold, cell), in_try));
        },
        ExprView::Match { expr: scrutinee, arms } => {
            lemma_released_explicit(*scrutinee, in_try, hold, cell);
            assert forall|i: int| 0 <= i < arms.len() implies arm_explicit(
                #[trigger] arms_released(arms, hold, cell)[i],
                in_try,
            ) by {
                assert(arm_explicit(arms[i], in_try));
                match arms[i].guard {
                    Some(guard) => {
                        lemma_released_explicit(guard, in_try, hold, cell);
                    },
                    None => {},
                }
                lemma_released_explicit(arms[i].body, in_try, hold, cell);
                assert(arms_released(arms, hold, cell)[i] == arm_released(arms[i], hold, cell));
            }
            assert(explicit(expr_released(expr, hold, cell), in_try));
        },
        ExprView::Closure { prefix, inputs, output, expr: body } => {},
        ExprView::Async { capture, block } => {},
        ExprView::TryBlock { block } => {
            lemma_block_released_explicit(block, true, hold, cell);
            assert(explicit(expr_released(expr, hold, cell), in_try));
        },
        ExprView::Await { base } => {
            lemma_released_explicit(*base, in_try, hold, cell);
            lemma_suspended_explicit(expr_released(*base, hold, cell), in_try, hold, cell);
            assert(explicit(expr_released(expr, hold, cell), in_try));
        },
        ExprView::Try { expr: inner } => {
            lemma_released_explicit(*inner, in_try, hold, cell);
            assert(explicit(expr_released(expr, hold, cell), in_try));
        },
        ExprView::Break { label, value } => {
            match value {
                Some(inner) => {
                    lemma_released_explicit(*inner, in_try, hold, cell);
                    assert(opt_box_released(value, hold, cell)
                        == Some(Box::new(expr_released(*inner, hold, cell))));
                },
                None => {
                    assert(opt_box_released(value, hold, cell) is None);
                },
            }
            assert(explicit(expr_released(expr, hold, cell), in_try));
        },
        ExprView::Continue { label } => {},
        ExprView::Return { value } => {
            match value {
                Some(inner) => {
                    lemma_released_explicit(*inner, in_try, hold, cell);
                    assert(opt_box_released(value, hold, cell)
                        == Some(Box::new(expr_released(*inner, hold, cell))));
                },
                None => {
                    assert(opt_box_released(value, hold, cell) is None);
                },
            }
            assert(explicit(expr_released(expr, hold, cell), in_try));
        },
    }
}

/// Wrapping the suspension points of a block leaves no fallible step
/// implicit that was explicit.
pub proof fn lemma_block_released_explicit(block: BlockView, in_try: bool, hold: Name, cell: Name)
    requires
        block_explicit(block, in_try),
    ensures
        block_explicit(block_released(block, hold, cell), in_try),
    decreases block, 0nat,
{
    let turned = block_released(block, hold, cell);
    assert forall|i: int| 0 <= i < turned.stmts.len() implies stmt_explicit(
        #[trigger] turned.stmts[i],
        in_try,
    ) by {
        assert(stmt_explicit(block.stmts[i], in_try));
        lemma_stmt_released_explicit(block.stmts[i], in_try, hold, cell);
    }
}

/// Wrapping the suspension points of a statement leaves no fallible step
/// implicit that was explicit.
proof fn lemma_stmt_released_explicit(stmt: StmtView, in_try: bool, hold: Name, cell: Name)
    requires
        stmt_explicit(stmt, in_try),
    ensures
        stmt_explicit(stmt_released(stmt, hold, cell), in_try),
    decreases stmt, 0nat,
{
    match stmt {
        StmtView::Local { attrs, pat, init, diverge } => {
            match init {
                Some(inner) => {
                    lemma_released_explicit(inner, in_try, hold, cell);
                },
                None => {},
            }
            match diverge {
                Some(inner) => {
                    lemma_released_explicit(inner, in_try, hold, cell);
                },
                None => {},
            }
        },
        StmtView::Item(text) => {},
        StmtView::Expr { expr, semi } => {
            lemma_released_explicit(expr, in_try, hold, cell);
        },
    }
}

/// Wrapping the suspension points of an expression lets no exit leave the
/// block that did not.
pub proof fn lemma_released_settled(expr: ExprView, scopes: Seq<ScopeView>, hold: Name, cell: Name)
    requires
        settled(expr, scopes),
    ensures
        settled(expr_released(expr, hold, cell), scopes),
    decreases expr, 0nat,
{
    match expr {
        ExprView::Name(name) => {},
        ExprView::Verbatim(text) => {},
        ExprView::Field { base, member } => {
            lemma_released_settled(*base, scopes, hold, cell);
            assert(settled(expr_released(expr, hold, cell), scopes));
        },
        ExprView::Reference { mutable, expr: target } => {
            lemma_released_settled(*target, scopes, hold, cell);
            assert(settled(expr_released(expr, hold, cell), scopes));
        },
        ExprView::Call { func, args } => {
            lemma_released_settled(*func, scopes, hold, cell);
            assert forall|i: int| 0 <= i < args.len() implies settled(
                #[trigger] exprs_released(args, hold, cell)[i],
                scopes,
            ) by {
                assert(settled(args[i], scopes));
                lemma_released_settled(args[i], scopes, hold, cell);
                assert(exprs_released(args, hold, cell)[i] == expr_released(args[i], hold, cell));
            }
            assert(settled(expr_released(expr, hold, cell), scopes));
        },
        ExprView::Form { form, parts } => {
            assert forall|i: int| 0 <= i < parts.len() implies settled(
                #[trigger] exprs_released(parts, hold, cell)[i],
                scopes,
            ) by {
                assert(settled(parts[i], scopes));
                lemma_released_settled(parts[i], scopes, hold, cell);
                assert(exprs_released(parts, hold, cell)[i] == expr_released(parts[i], hold, cell));
            }
            assert(settled(expr_released(expr, hold, cell), scopes));
        },
        ExprView::Let { pat, expr: scrutinee } => {
            lemma_released_settled(*scrutinee, scopes, hold, cell);
            assert(settled(expr_released(expr, hold, cell), scopes));
        },
        ExprView::If { cond, then_branch, else_branch } => {
            lemma_released_settled(*cond, scopes, hold, cell);
            lemma_block_released_settled(then_branch, scopes, hold, cell);
            match else_branch {
                Some(inner) => {
                    lemma_released_settled(*inner, scopes, hold, cell);
                    assert(opt_box_released(else_branch, hold, cell)
                        == Some(Box::new(expr_released(*inner, hold, cell))));
                },
                None => {
                    assert(opt_box_released(else_branch, hold, cell) is None);
                },
            }
            assert(settled(expr_released(expr, hold, cell), scopes));
        },
        ExprView::While { label, cond, body } => {
            lemma_released_settled(*cond, inside(scopes, label, true), hold, cell);
            lemma_block_released_settled(body, inside(scopes, label, true), hold, cell);
            assert(settled(expr_released(expr, hold, cell), scopes));
        },
        ExprView::ForLoop { label, pat, expr: iter, body } => {
            lemma_released_settled(*iter, inside(scopes, label, true), hold, cell);
            lemma_block_released_settled(body, inside(scopes, label, true), hold, cell);
            assert(settled(expr_released(expr, hold, cell), scopes));
        },
        ExprView::Loop { label, body } => {
            lemma_block_released_settled(body, inside(scopes, label, true), hold, cell);
            assert(settled(expr_released(expr, hold, cell), scopes));
        },
        ExprView::Block { label, block } => {
            lemma_block_released_settled(block, inside(scopes, label, false), hold, cell);
            assert(settled(expr_released(expr, hold, cell), scopes));
        },
        ExprView::Match { expr: scrutinee, arms } => {
            lemma_released_settled(*scrutinee, scopes, hold, cell);
            assert forall|i: int| 0 <= i < arms.len() implies arm_settled(
                #[trigger] arms_released(arms, hold, cell)[i],
                scopes,
            ) by {
                assert(arm_settled(arms[i], scopes));
                match arms[i].guard {
                    Some(guard) => {
                        lemma_released_settled(guard, scopes, hold, cell);
                    },
                    None => {},
                }
                lemma_released_settled(arms[i].body, scopes, hold, cell);
                assert(arms_released(arms, hold, cell)[i] == arm_released(arms[i], hold, cell));
            }
            assert(settled(expr_released(expr, hold, cell), scopes));
        },
        ExprView::Closure { prefix, inputs, output, expr: body } => {},
        ExprView::Async { capture, block } => {},
        ExprView::TryBlock { block } => {
            lemma_block_released_settled(block, scopes, hold, cell);
            assert(settled(expr_released(expr, hold, cell), scopes));
        },
        ExprView::Await { base } => {
            lemma_released_settled(*base, scopes, hold, cell);
            lemma_suspended_settled(expr_released(*base, hold, cell), scopes, hold, cell);
            assert(settled(expr_released(expr, hold, cell), scopes));
        },
        ExprView::Try { expr: inner } => {
            lemma_released_settled(*inner, scopes, hold, cell);
            assert(settled(expr_released(expr, hold, cell), scopes));
        },
        ExprView::Break { label, value } => {
            match value {
                Some(inner) => {
                    lemma_released_settled(*inner, scopes, hold, cell);
                    assert(opt_box_released(value, hold, cell)
                        == Some(Box::new(expr_released(*inner, hold, cell))));
                },
                None => {
                    assert(opt_box_released(value, hold, cell) is None);
                },
            }
            assert(settled(expr_released(expr, hold, cell), scopes));
        },
        ExprView::Continue { label } => {},
        ExprView::Return { value } => {
            match value {
                Some(inner) => {
                    lemma_released_settled(*inner, scopes, hold, cell);
                    assert(opt_box_released(value, hold, cell)
                        == Some(Box::new(expr_released(*inner, hold, cell))));
                },
                None => {
                    assert(opt_box_released(value, hold, cell) is None);
                },
            }
            assert(settled(expr_released(expr, hold, cell), scopes));
        },
    }
}

/// Wrapping the suspension points of a block lets no exit leave the block
/// that did not.
pub proof fn lemma_block_released_settled(
    block: BlockView,
    scopes: Seq<ScopeView>,
    hold: Name,
    cell: Name,
)
    requires
        block_settled(block, scopes),
    ensures
        block_settled(block_released(block, hold, cell), scopes),
    decreases block, 0nat,
{
    let turned = block_released(block, hold, cell);
    assert forall|i: int| 0 <= i < turned.stmts.len() implies stmt_settled(
        #[trigger] turned.stmts[i],
        scopes,
    ) by {
        assert(stmt_settled(block.stmts[i], scopes));
        lemma_stmt_released_settled(block.stmts[i], scopes, hold, cell);
    }
}

/// Wrapping the suspension points of a statement lets no exit leave the
/// block that did not.
proof fn lemma_stmt_released_settled(stmt: StmtView, scopes: Seq<ScopeView>, hold: Name, cell: Name)
    requires
        stmt_settled(stmt, scopes),
    ensures
        stmt_settled(stmt_released(stmt, hold, cell), scopes),
    decreases stmt, 0nat,
{
    match stmt {
        StmtView::Local { attrs, pat, init, diverge } => {
            match init {
                Some(inner) => {
                    lemma_released_settled(inner, scopes, hold, cell);
                },
                None => {},
            }
            match diverge {
                Some(inner) => {
                    lemma_released_settled(inner, scopes, hold, cell);
                },
                None => {},
            }
        },
        StmtView::Item(text) => {},
        StmtView::Expr { expr, semi } => {
            lemma_released_settled(expr, scopes, hold, cell);
        },
    }
}

/// Whether a block can run as a strand: no fallible step of it is implicit,
/// no `break` or `continue` leaves it, and, where it holds the cell, it never
/// suspends while it does.
pub open spec fn runs_alone(block: BlockView, holds: bool) -> bool {
    &&& block_explicit(block, false)
    &&& block_settled(block, Seq::empty())
    &&& holds ==> block_yielding(block, hold_name())
}

/// Every block of an expansion can run as a strand.
pub proof fn lemma_expanded_runs_alone(
    blocks: Seq<BlockView>,
    set: Option<Seq<CaptureView>>,
    at: int,
)
    requires
        0 <= at < blocks.len(),
    ensures
        expanded(blocks, set).len() == blocks.len(),
        runs_alone(expanded(blocks, set)[at], set is Some),
{
    let first = shared(blocks, set);
    let second = stepped(blocks, set);
    let third = blocks_escaped(second, output_name(), private_name());
    assert(first.len() == blocks.len());
    lemma_block_desugared_explicit(first[at], false);
    lemma_block_escaped_explicit(second[at], false, Seq::empty(), output_name(), private_name());
    lemma_block_escaped_settled(second[at], Seq::empty(), output_name(), private_name());
    match set {
        Some(paths) => {
            let released = block_released(third[at], hold_name(), cell_name());
            lemma_block_released_explicit(third[at], false, hold_name(), cell_name());
            lemma_block_released_settled(third[at], Seq::empty(), hold_name(), cell_name());
            lemma_block_holding_yielding(third[at], hold_name(), cell_name());
            lemma_holding_explicit(released, false, hold_name(), cell_name());
            lemma_holding_settled(released, Seq::empty(), hold_name(), cell_name());
            assert(expanded(blocks, set)[at] == BlockView {
                stmts: seq![acquire_stmt(hold_name(), cell_name())] + released.stmts,
            });
        },
        None => {},
    }
}

} // verus!
