//! Non-local exits turned into tagged results.
//!
//! A `break` or `continue` that leaves the block, and every `return`, cannot
//! stand inside a strand: it becomes a `return` of a variant of the tagged
//! result, which the call site turns back into the exit it stood for. Each
//! exit, by kind and label, has one variant, noted in a table when the walk
//! first meets it.
//!
//! An unlabelled `break` or `continue` leaves the block unless a loop of the
//! block encloses it; a labelled one unless a loop or block of that label
//! encloses it. Closures, `async` blocks and nested items are not entered.

use crate::syntax::{
    arms_view, blocks_view, exprs_view, label_view, opt_box_view, opt_view, stmts_view, Arm,
    ArmView, Block, BlockView, Expr, ExprView, Form, FormView, Name, PatView, Stmt, StmtView,
};
use vstd::prelude::*;

verus! {

/// A non-local exit, by kind and label.
#[derive(Debug, Clone, PartialEq, Eq)]
pub enum Escape {
    Break(Option<String>),
    Continue(Option<String>),
    Return,
}

/// Model of [`Escape`].
pub enum EscapeView {
    Break(Option<Name>),
    Continue(Option<Name>),
    Return,
}

impl View for Escape {
    type V = EscapeView;

    open spec fn view(&self) -> EscapeView {
        match self {
            Escape::Break(label) => EscapeView::Break(label_view(*label)),
            Escape::Continue(label) => EscapeView::Continue(label_view(*label)),
            Escape::Return => EscapeView::Return,
        }
    }
}

/// The variant of the tagged result that stands for an exit.
#[derive(Debug, Clone, PartialEq, Eq)]
pub struct Variant {
    /// The exit that the variant stands for.
    pub escape: Escape,
    /// The name of the variant.
    pub name: String,
    /// Whether the exit carried a value where the walk first met it.
    pub has_value: bool,
}

/// Model of [`Variant`].
pub struct VariantView {
    pub escape: EscapeView,
    pub name: Name,
    pub has_value: bool,
}

impl View for Variant {
    type V = VariantView;

    open spec fn view(&self) -> VariantView {
        VariantView { escape: self.escape@, name: self.name@, has_value: self.has_value }
    }
}

/// The models of a table of variants, in order.
pub open spec fn variants_view(table: Vec<Variant>) -> Seq<VariantView> {
    Seq::new(table.len() as nat, |i: int| table[i]@)
}

/// A loop or a labelled block of the block, around the point that the walk
/// has reached.
#[derive(Debug, Clone, PartialEq, Eq)]
pub struct Scope {
    pub label: Option<String>,
    pub is_loop: bool,
}

/// Model of [`Scope`].
pub struct ScopeView {
    pub label: Option<Name>,
    pub is_loop: bool,
}

impl View for Scope {
    type V = ScopeView;

    open spec fn view(&self) -> ScopeView {
        ScopeView { label: label_view(self.label), is_loop: self.is_loop }
    }
}

/// The models of a stack of scopes, outermost first.
pub open spec fn scopes_view(scopes: Vec<Scope>) -> Seq<ScopeView> {
    Seq::new(scopes.len() as nat, |i: int| scopes[i]@)
}

/// The name of the variant that stands for an exit: the prefix, the kind,
/// and the label where there is one.
pub open spec fn variant_name_of(escape: EscapeView, prefix: Name) -> Name {
    match escape {
        EscapeView::Break(Some(label)) => prefix + "_Break_"@ + label,
        EscapeView::Break(None) => prefix + "_Break"@,
        EscapeView::Continue(Some(label)) => prefix + "_Continue_"@ + label,
        EscapeView::Continue(None) => prefix + "_Continue"@,
        EscapeView::Return => prefix + "_Return"@,
    }
}

/// Whether one of the scopes is a loop.
pub open spec fn in_loop(scopes: Seq<ScopeView>) -> bool {
    exists|i: int| 0 <= i < scopes.len() && (#[trigger] scopes[i]).is_loop
}

/// Whether one of the scopes has the label `label`.
pub open spec fn in_label(scopes: Seq<ScopeView>, label: Name) -> bool {
    exists|i: int| 0 <= i < scopes.len() && (#[trigger] scopes[i]).label == Some(label)
}

/// Whether an exit, at a point inside `scopes`, leaves the block.
pub open spec fn leaves(escape: EscapeView, scopes: Seq<ScopeView>) -> bool {
    match escape {
        EscapeView::Break(Some(label)) => !in_label(scopes, label),
        EscapeView::Break(None) => !in_loop(scopes),
        EscapeView::Continue(Some(label)) => !in_label(scopes, label),
        EscapeView::Continue(None) => !in_loop(scopes),
        EscapeView::Return => true,
    }
}

/// The scopes inside a loop or block with the label `label`: a scope more
/// for a loop and for a labelled block, none for a block without label.
pub open spec fn inside(scopes: Seq<ScopeView>, label: Option<Name>, is_loop: bool) -> Seq<
    ScopeView,
> {
    if is_loop || label is Some {
        scopes.push(ScopeView { label, is_loop })
    } else {
        scopes
    }
}

/// The unit value `()`.
pub open spec fn unit() -> ExprView {
    ExprView::Form { form: FormView::Tuple, parts: Seq::empty() }
}

/// The expression that an exit that leaves the block becomes:
/// `return output::variant(payload)`, with `()` for an exit without value.
pub open spec fn escaping(
    escape: EscapeView,
    value: Option<Box<ExprView>>,
    output: Name,
    prefix: Name,
) -> ExprView {
    ExprView::Return {
        value: Some(
            Box::new(
                ExprView::Call {
                    func: Box::new(
                        ExprView::Verbatim(output + "::"@ + variant_name_of(escape, prefix)),
                    ),
                    args: seq![
                        match value {
                            Some(payload) => *payload,
                            None => unit(),
                        },
                    ],
                },
            ),
        ),
    }
}

/// An exit met by the walk.
pub struct Event {
    pub escape: EscapeView,
    pub has_value: bool,
}

/// Whether the table has a variant for `escape`.
pub open spec fn known(table: Seq<VariantView>, escape: EscapeView) -> bool {
    exists|i: int| 0 <= i < table.len() && (#[trigger] table[i]).escape == escape
}

/// The table after one exit was met: a variant more where the exit has none
/// yet.
pub open spec fn note(table: Seq<VariantView>, event: Event, prefix: Name) -> Seq<VariantView> {
    if known(table, event.escape) {
        table
    } else {
        table.push(
            VariantView {
                escape: event.escape,
                name: variant_name_of(event.escape, prefix),
                has_value: event.has_value,
            },
        )
    }
}

/// The table after the exits were met, one after the other.
pub open spec fn noted(table: Seq<VariantView>, events: Seq<Event>, prefix: Name) -> Seq<
    VariantView,
>
    decreases events.len(),
{
    if events.len() == 0 {
        table
    } else {
        note(noted(table, events.drop_last(), prefix), events.last(), prefix)
    }
}

/// The exit that an expression is, where it is one that leaves the block.
pub open spec fn event_of(expr: ExprView, scopes: Seq<ScopeView>) -> Seq<Event> {
    match expr {
        ExprView::Break { label, value } => if leaves(EscapeView::Break(label), scopes) {
            seq![Event { escape: EscapeView::Break(label), has_value: value is Some }]
        } else {
            Seq::empty()
        },
        ExprView::Continue { label } => if leaves(EscapeView::Continue(label), scopes) {
            seq![Event { escape: EscapeView::Continue(label), has_value: false }]
        } else {
            Seq::empty()
        },
        ExprView::Return { value } => seq![
            Event { escape: EscapeView::Return, has_value: value is Some },
        ],
        _ => Seq::empty(),
    }
}

/// The exits that leave the block, in the order in which the walk meets
/// them: those inside an expression before the expression itself.
pub open spec fn expr_events(expr: ExprView, scopes: Seq<ScopeView>) -> Seq<Event>
    decreases expr, 0nat,
{
    match expr {
        ExprView::Name(name) => Seq::empty(),
        ExprView::Verbatim(text) => Seq::empty(),
        ExprView::Field { base, member } => expr_events(*base, scopes),
        ExprView::Reference { mutable, expr: target } => expr_events(*target, scopes),
        ExprView::Call { func, args } => expr_events(*func, scopes) + exprs_events(
            args,
            0,
            scopes,
        ),
        ExprView::Form { form, parts } => exprs_events(parts, 0, scopes),
        ExprView::Let { pat, expr: scrutinee } => expr_events(*scrutinee, scopes),
        ExprView::If { cond, then_branch, else_branch } => expr_events(*cond, scopes)
            + block_events(then_branch, scopes) + opt_box_events(else_branch, scopes),
        ExprView::While { label, cond, body } => expr_events(*cond, inside(scopes, label, true))
            + block_events(body, inside(scopes, label, true)),
        ExprView::ForLoop { label, pat, expr: iter, body } => expr_events(
            *iter,
            inside(scopes, label, true),
        ) + block_events(body, inside(scopes, label, true)),
        ExprView::Loop { label, body } => block_events(body, inside(scopes, label, true)),
        ExprView::Block { label, block } => block_events(block, inside(scopes, label, false)),
        ExprView::Match { expr: scrutinee, arms } => expr_events(*scrutinee, scopes)
            + arms_events(arms, 0, scopes),
        ExprView::Closure { prefix, inputs, output, expr: body } => Seq::empty(),
        ExprView::Async { capture, block } => Seq::empty(),
        ExprView::TryBlock { block } => block_events(block, scopes),
        ExprView::Await { base } => expr_events(*base, scopes),
        ExprView::Try { expr: inner } => expr_events(*inner, scopes),
        ExprView::Break { label, value } => opt_box_events(value, scopes) + event_of(
            expr,
            scopes,
        ),
        ExprView::Continue { label } => event_of(expr, scopes),
        ExprView::Return { value } => opt_box_events(value, scopes) + event_of(expr, scopes),
    }
}

/// The exits of an optional expression.
pub open spec fn opt_box_events(expr: Option<Box<ExprView>>, scopes: Seq<ScopeView>) -> Seq<Event>
    decreases expr, 0nat,
{
    match expr {
        Some(inner) => expr_events(*inner, scopes),
        None => Seq::empty(),
    }
}

/// The exits of an optional expression.
pub open spec fn opt_events(expr: Option<ExprView>, scopes: Seq<ScopeView>) -> Seq<Event>
    decreases expr, 0nat,
{
    match expr {
        Some(inner) => expr_events(inner, scopes),
        None => Seq::empty(),
    }
}

/// The exits of the expressions from index `from` on.
pub open spec fn exprs_events(exprs: Seq<ExprView>, from: nat, scopes: Seq<ScopeView>) -> Seq<
    Event,
>
    decreases exprs, exprs.len() - from,
{
    if from >= exprs.len() {
        Seq::empty()
    } else {
        expr_events(exprs[from as int], scopes) + exprs_events(exprs, from + 1, scopes)
    }
}

/// The exits of a block.
pub open spec fn block_events(block: BlockView, scopes: Seq<ScopeView>) -> Seq<Event>
    decreases block, 0nat,
{
    stmts_events(block.stmts, 0, scopes)
}

/// The exits of a statement.
pub open spec fn stmt_events(stmt: StmtView, scopes: Seq<ScopeView>) -> Seq<Event>
    decreases stmt, 0nat,
{
    match stmt {
        StmtView::Local { attrs, pat, init, diverge } => opt_events(init, scopes) + opt_events(
            diverge,
            scopes,
        ),
        StmtView::Item(text) => Seq::empty(),
        StmtView::Expr { expr, semi } => expr_events(expr, scopes),
    }
}

/// The exits of the statements from index `from` on.
pub open spec fn stmts_events(stmts: Seq<StmtView>, from: nat, scopes: Seq<ScopeView>) -> Seq<
    Event,
>
    decreases stmts, stmts.len() - from,
{
    if from >= stmts.len() {
        Seq::empty()
    } else {
        stmt_events(stmts[from as int], scopes) + stmts_events(stmts, from + 1, scopes)
    }
}

/// The exits of a match arm.
pub open spec fn arm_events(arm: ArmView, scopes: Seq<ScopeView>) -> Seq<Event>
    decreases arm, 0nat,
{
    opt_events(arm.guard, scopes) + expr_events(arm.body, scopes)
}

/// The exits of the match arms from index `from` on.
pub open spec fn arms_events(arms: Seq<ArmView>, from: nat, scopes: Seq<ScopeView>) -> Seq<Event>
    decreases arms, arms.len() - from,
{
    if from >= arms.len() {
        Seq::empty()
    } else {
        arm_events(arms[from as int], scopes) + arms_events(arms, from + 1, scopes)
    }
}

/// The exits of the blocks from index `from` on, each block taken as a scope
/// of its own.
pub open spec fn blocks_events(blocks: Seq<BlockView>, from: nat) -> Seq<Event>
    decreases blocks.len() - from,
{
    if from >= blocks.len() {
        Seq::empty()
    } else {
        block_events(blocks[from as int], Seq::empty()) + blocks_events(blocks, from + 1)
    }
}

/// An expression with the exits that leave the block turned into returns of
/// tagged results.
pub open spec fn expr_escaped(
    expr: ExprView,
    scopes: Seq<ScopeView>,
    output: Name,
    prefix: Name,
) -> ExprView
    decreases expr, 0nat,
{
    match expr {
        ExprView::Name(name) => expr,
        ExprView::Verbatim(text) => expr,
        ExprView::Field { base, member } => ExprView::Field {
            base: Box::new(expr_escaped(*base, scopes, output, prefix)),
            member,
        },
        ExprView::Reference { mutable, expr: target } => ExprView::Reference {
            mutable,
            expr: Box::new(expr_escaped(*target, scopes, output, prefix)),
        },
        ExprView::Call { func, args } => ExprView::Call {
            func: Box::new(expr_escaped(*func, scopes, output, prefix)),
            args: exprs_escaped(args, scopes, output, prefix),
        },
        ExprView::Form { form, parts } => ExprView::Form {
            form,
            parts: exprs_escaped(parts, scopes, output, prefix),
        },
        ExprView::Let { pat, expr: scrutinee } => ExprView::Let {
            pat,
            expr: Box::new(expr_escaped(*scrutinee, scopes, output, prefix)),
        },
        ExprView::If { cond, then_branch, else_branch } => ExprView::If {
            cond: Box::new(expr_escaped(*cond, scopes, output, prefix)),
            then_branch: block_escaped(then_branch, scopes, output, prefix),
            else_branch: opt_box_escaped(else_branch, scopes, output, prefix),
        },
        ExprView::While { label, cond, body } => ExprView::While {
            label,
            cond: Box::new(expr_escaped(*cond, inside(scopes, label, true), output, prefix)),
            body: block_escaped(body, inside(scopes, label, true), output, prefix),
        },
        ExprView::ForLoop { label, pat, expr: iter, body } => ExprView::ForLoop {
            label,
            pat,
            expr: Box::new(expr_escaped(*iter, inside(scopes, label, true), output, prefix)),
            body: block_escaped(body, inside(scopes, label, true), output, prefix),
        },
        ExprView::Loop { label, body } => ExprView::Loop {
            label,
            body: block_escaped(body, inside(scopes, label, true), output, prefix),
        },
        ExprView::Block { label, block } => ExprView::Block {
            label,
            block: block_escaped(block, inside(scopes, label, false), output, prefix),
        },
        ExprView::Match { expr: scrutinee, arms } => ExprView::Match {
            expr: Box::new(expr_escaped(*scrutinee, scopes, output, prefix)),
            arms: arms_escaped(arms, scopes, output, prefix),
        },
        ExprView::Closure { prefix: head, inputs, output: result, expr: body } => expr,
        ExprView::Async { capture, block } => expr,
        ExprView::TryBlock { block } => ExprView::TryBlock {
            block: block_escaped(block, scopes, output, prefix),
        },
        ExprView::Await { base } => ExprView::Await {
            base: Box::new(expr_escaped(*base, scopes, output, prefix)),
        },
        ExprView::Try { expr: inner } => ExprView::Try {
            expr: Box::new(expr_escaped(*inner, scopes, output, prefix)),
        },
        ExprView::Break { label, value } => if leaves(EscapeView::Break(label), scopes) {
            escaping(
                EscapeView::Break(label),
                opt_box_escaped(value, scopes, output, prefix),
                output,
                prefix,
            )
        } else {
            ExprView::Break { label, value: opt_box_escaped(value, scopes, output, prefix) }
        },
        ExprView::Continue { label } => if leaves(EscapeView::Continue(label), scopes) {
            escaping(EscapeView::Continue(label), None, output, prefix)
        } else {
            expr
        },
        ExprView::Return { value } => escaping(
            EscapeView::Return,
            opt_box_escaped(value, scopes, output, prefix),
            output,
            prefix,
        ),
    }
}

/// An optional expression with its exits turned.
pub open spec fn opt_box_escaped(
    expr: Option<Box<ExprView>>,
    scopes: Seq<ScopeView>,
    output: Name,
    prefix: Name,
) -> Option<Box<ExprView>>
    decreases expr, 0nat,
{
    match expr {
        Some(inner) => Some(Box::new(expr_escaped(*inner, scopes, output, prefix))),
        None => None,
    }
}

/// An optional expression with its exits turned.
pub open spec fn opt_escaped(
    expr: Option<ExprView>,
    scopes: Seq<ScopeView>,
    output: Name,
    prefix: Name,
) -> Option<ExprView>
    decreases expr, 0nat,
{
    match expr {
        Some(inner) => Some(expr_escaped(inner, scopes, output, prefix)),
        None => None,
    }
}

/// Each of the expressions with its exits turned.
pub open spec fn exprs_escaped(
    exprs: Seq<ExprView>,
    scopes: Seq<ScopeView>,
    output: Name,
    prefix: Name,
) -> Seq<ExprView>
    decreases exprs, 0nat,
{
    Seq::new(
        exprs.len(),
        |i: int|
            if 0 <= i < exprs.len() {
                expr_escaped(exprs[i], scopes, output, prefix)
            } else {
                ExprView::Verbatim(Seq::empty())
            },
    )
}

/// A block with its exits turned.
pub open spec fn block_escaped(
    block: BlockView,
    scopes: Seq<ScopeView>,
    output: Name,
    prefix: Name,
) -> BlockView
    decreases block, 1nat,
{
    BlockView { stmts: stmts_escaped(block.stmts, scopes, output, prefix) }
}

/// Each of the statements with its exits turned.
pub open spec fn stmts_escaped(
    stmts: Seq<StmtView>,
    scopes: Seq<ScopeView>,
    output: Name,
    prefix: Name,
) -> Seq<StmtView>
    decreases stmts, 0nat,
{
    Seq::new(
        stmts.len(),
        |i: int|
            if 0 <= i < stmts.len() {
                stmt_escaped(stmts[i], scopes, output, prefix)
            } else {
                StmtView::Item(Seq::empty())
            },
    )
}

/// A statement with its exits turned.
pub open spec fn stmt_escaped(
    stmt: StmtView,
    scopes: Seq<ScopeView>,
    output: Name,
    prefix: Name,
) -> StmtView
    decreases stmt, 0nat,
{
    match stmt {
        StmtView::Local { attrs, pat, init, diverge } => StmtView::Local {
            attrs,
            pat,
            init: opt_escaped(init, scopes, output, prefix),
            diverge: opt_escaped(diverge, scopes, output, prefix),
        },
        StmtView::Item(text) => stmt,
        StmtView::Expr { expr, semi } => StmtView::Expr {
            expr: expr_escaped(expr, scopes, output, prefix),
            semi,
        },
    }
}

/// A match arm with its exits turned.
pub open spec fn arm_escaped(
    arm: ArmView,
    scopes: Seq<ScopeView>,
    output: Name,
    prefix: Name,
) -> ArmView
    decreases arm, 0nat,
{
    ArmView {
        attrs: arm.attrs,
        pat: arm.pat,
        guard: opt_escaped(arm.guard, scopes, output, prefix),
        body: expr_escaped(arm.body, scopes, output, prefix),
    }
}

/// Each of the match arms with its exits turned.
pub open spec fn arms_escaped(
    arms: Seq<ArmView>,
    scopes: Seq<ScopeView>,
    output: Name,
    prefix: Name,
) -> Seq<ArmView>
    decreases arms, 0nat,
{
    Seq::new(
        arms.len(),
        |i: int|
            if 0 <= i < arms.len() {
                arm_escaped(arms[i], scopes, output, prefix)
            } else {
                ArmView {
                    attrs: Seq::empty(),
                    pat: PatView::Verbatim(Seq::empty()),
                    guard: None,
                    body: ExprView::Verbatim(Seq::empty()),
                }
            },
    )
}

/// Each of the blocks with its exits turned, each block taken as a scope of
/// its own.
pub open spec fn blocks_escaped(blocks: Seq<BlockView>, output: Name, prefix: Name) -> Seq<
    BlockView,
> {
    Seq::new(blocks.len(), |i: int| block_escaped(blocks[i], Seq::empty(), output, prefix))
}

/// Meeting two runs of exits in turn is meeting their concatenation.
pub proof fn lemma_noted_append(
    table: Seq<VariantView>,
    first: Seq<Event>,
    second: Seq<Event>,
    prefix: Name,
)
    ensures
        noted(table, first + second, prefix) == noted(noted(table, first, prefix), second, prefix),
    decreases second.len(),
{
    if second.len() == 0 {
        assert(first + second =~= first);
    } else {
        assert((first + second).drop_last() =~= first + second.drop_last());
        assert((first + second).last() == second.last());
        lemma_noted_append(table, first, second.drop_last(), prefix);
    }
}

/// Meeting one exit notes it; meeting none leaves the table as it is.
pub proof fn lemma_noted_one(table: Seq<VariantView>, event: Event, prefix: Name)
    ensures
        noted(table, seq![event], prefix) == note(table, event, prefix),
        noted(table, Seq::empty(), prefix) == table,
{
    assert(seq![event].drop_last() =~= Seq::<Event>::empty());
    assert(noted(table, seq![event].drop_last(), prefix) == table);
}

/// Whether no two variants of the table stand for the same exit, and each
/// variant from position `from` on has the name that its exit gives it.
pub open spec fn table_sound(table: Seq<VariantView>, from: nat, prefix: Name) -> bool {
    &&& forall|i: int, j: int|
        0 <= i < j < table.len() ==> (#[trigger] table[i]).escape != (#[trigger] table[j]).escape
    &&& forall|i: int|
        from <= i < table.len() ==> (#[trigger] table[i]).name == variant_name_of(
            table[i].escape,
            prefix,
        )
}

/// One variant for each exit: meeting exits leaves the variants that the
/// table held where they stood, adds no second variant for any exit, names
/// each new variant after its exit, and leaves no exit that was met without
/// a variant.
pub proof fn lemma_noted_sound(table: Seq<VariantView>, events: Seq<Event>, prefix: Name)
    requires
        table_sound(table, table.len(), prefix),
    ensures
        table_sound(noted(table, events, prefix), table.len(), prefix),
        table.len() <= noted(table, events, prefix).len(),
        forall|i: int| 0 <= i < table.len() ==> noted(table, events, prefix)[i] == table[i],
        forall|k: int|
            0 <= k < events.len() ==> known(
                noted(table, events, prefix),
                (#[trigger] events[k]).escape,
            ),
    decreases events.len(),
{
    if events.len() > 0 {
        let before = noted(table, events.drop_last(), prefix);
        let after = noted(table, events, prefix);
        let last = events.last();
        lemma_noted_sound(table, events.drop_last(), prefix);
        assert forall|k: int| 0 <= k < events.len() implies known(
            after,
            (#[trigger] events[k]).escape,
        ) by {
            if k < events.len() - 1 {
                assert(events.drop_last()[k] == events[k]);
                let at = choose|at: int|
                    0 <= at < before.len() && (#[trigger] before[at]).escape == events[k].escape;
                assert(after[at].escape == events[k].escape);
            } else if known(before, last.escape) {
            } else {
                assert(after[before.len() as int].escape == last.escape);
            }
        }
    }
}

/// A copy of an optional label.
fn copy_label(label: &Option<String>) -> (copy: Option<String>)
    ensures
        label_view(copy) == label_view(*label),
{
    match label {
        Some(name) => Some(name.clone()),
        None => None,
    }
}

/// Whether two optional labels are the same.
fn same_label(a: &Option<String>, b: &Option<String>) -> (same: bool)
    ensures
        same == (label_view(*a) == label_view(*b)),
{
    match (a, b) {
        (Some(x), Some(y)) => *x == *y,
        (None, None) => true,
        _ => false,
    }
}

/// Whether two exits are the same, by kind and label.
fn same_escape(a: &Escape, b: &Escape) -> (same: bool)
    ensures
        same == (a@ == b@),
{
    match (a, b) {
        (Escape::Break(x), Escape::Break(y)) => same_label(x, y),
        (Escape::Continue(x), Escape::Continue(y)) => same_label(x, y),
        (Escape::Return, Escape::Return) => true,
        _ => false,
    }
}

impl Escape {
    /// The name of the variant that stands for the exit: `private_ident`,
    /// then `_Break`, `_Continue` or `_Return`, then `_` and the label where
    /// the exit has one.
    pub fn variant_name(&self, private_ident: &String) -> (name: String)
        ensures
            name@ == variant_name_of(self@, private_ident@),
    {
        let mut name = private_ident.clone();
        match self {
            Escape::Break(Some(label)) => {
                name.append("_Break_");
                name.append(label.as_str());
            },
            Escape::Break(None) => {
                name.append("_Break");
            },
            Escape::Continue(Some(label)) => {
                name.append("_Continue_");
                name.append(label.as_str());
            },
            Escape::Continue(None) => {
                name.append("_Continue");
            },
            Escape::Return => {
                name.append("_Return");
            },
        }
        name
    }

    /// A copy of the exit.
    pub fn duplicate(&self) -> (copy: Escape)
        ensures
            copy@ == self@,
    {
        match self {
            Escape::Break(label) => Escape::Break(copy_label(label)),
            Escape::Continue(label) => Escape::Continue(copy_label(label)),
            Escape::Return => Escape::Return,
        }
    }
}

/// Whether one of the scopes is a loop.
fn any_loop(scopes: &Vec<Scope>) -> (found: bool)
    ensures
        found == in_loop(scopes_view(*scopes)),
{
    let mut i: usize = 0;
    while i < scopes.len()
        invariant
            i <= scopes.len(),
            forall|j: int| 0 <= j < i ==> !(#[trigger] scopes_view(*scopes)[j]).is_loop,
        decreases scopes.len() - i,
    {
        if scopes[i].is_loop {
            assert(scopes_view(*scopes)[i as int].is_loop);
            return true;
        }
        i += 1;
    }
    false
}

/// Whether one of the scopes has the label `label`.
fn any_label(scopes: &Vec<Scope>, label: &String) -> (found: bool)
    ensures
        found == in_label(scopes_view(*scopes), label@),
{
    let mut i: usize = 0;
    while i < scopes.len()
        invariant
            i <= scopes.len(),
            forall|j: int|
                0 <= j < i ==> (#[trigger] scopes_view(*scopes)[j]).label != Some(label@),
        decreases scopes.len() - i,
    {
        let here = match &scopes[i].label {
            Some(name) => *name == *label,
            None => false,
        };
        if here {
            assert(scopes_view(*scopes)[i as int].label == Some(label@));
            return true;
        }
        i += 1;
    }
    false
}

/// Whether an exit with the label `label`, at a point inside `scopes`,
/// leaves the block.
fn label_leaves(label: &Option<String>, scopes: &Vec<Scope>) -> (out: bool)
    ensures
        out == leaves(EscapeView::Break(label_view(*label)), scopes_view(*scopes)),
        out == leaves(EscapeView::Continue(label_view(*label)), scopes_view(*scopes)),
{
    match label {
        Some(name) => !any_label(scopes, name),
        None => !any_loop(scopes),
    }
}

/// Notes an exit in the table, where the table has no variant for it yet.
fn note_escape(found: &mut Vec<Variant>, escape: Escape, has_value: bool, prefix: &String)
    ensures
        variants_view(*final(found)) == note(
            variants_view(*old(found)),
            Event { escape: escape@, has_value },
            prefix@,
        ),
{
    let ghost table = variants_view(*found);
    let mut i: usize = 0;
    while i < found.len()
        invariant
            i <= found.len(),
            table == variants_view(*found),
            *found == *old(found),
            forall|j: int| 0 <= j < i ==> (#[trigger] table[j]).escape != escape@,
        decreases found.len() - i,
    {
        if same_escape(&found[i].escape, &escape) {
            assert(table[i as int].escape == escape@);
            return ;
        }
        i += 1;
    }
    let name = escape.variant_name(prefix);
    let variant = Variant { escape, name, has_value };
    let ghost added = variant@;
    found.push(variant);
    assert(variants_view(*found) =~= table.push(added));
}

/// Builds `()`.
fn make_unit() -> (out: Expr)
    ensures
        out@ == unit(),
{
    let parts: Vec<Expr> = Vec::new();
    assert(exprs_view(parts) =~= Seq::empty());
    Expr::Form { form: Form::Tuple, parts }
}

/// Builds `return output::variant(payload)`.
fn make_escaping(
    escape: &Escape,
    value: Option<Box<Expr>>,
    output: &String,
    prefix: &String,
) -> (out: Expr)
    ensures
        out@ == escaping(escape@, opt_box_view(value), output@, prefix@),
{
    let payload = match value {
        Some(inner) => *inner,
        None => make_unit(),
    };
    let ghost payload_view = payload@;
    let mut path = output.clone();
    path.append("::");
    let name = escape.variant_name(prefix);
    path.append(name.as_str());
    assert(path@ == output@ + "::"@ + variant_name_of(escape@, prefix@));
    let func = Expr::Verbatim(path);
    let ghost func_view = func@;
    assert(func_view == ExprView::Verbatim(
        output@ + "::"@ + variant_name_of(escape@, prefix@),
    ));
    let mut args: Vec<Expr> = Vec::new();
    args.push(payload);
    assert(exprs_view(args) =~= seq![payload_view]);
    let call = Expr::Call { func: Box::new(func), args };
    let ghost call_view = call@;
    assert(call_view == ExprView::Call { func: Box::new(func_view), args: seq![payload_view] });
    let tagged = Some(Box::new(call));
    assert(opt_box_view(tagged) == Some(Box::new(call_view)));
    Expr::Return { value: tagged }
}

/// Enters a loop or a block: pushes a scope where `inside` has one more.
fn enter(scopes: &mut Vec<Scope>, label: &Option<String>, is_loop: bool) -> (pushed: bool)
    ensures
        scopes_view(*final(scopes)) == inside(
            scopes_view(*old(scopes)),
            label_view(*label),
            is_loop,
        ),
        pushed == (is_loop || label_view(*label) is Some),
        pushed ==> final(scopes).len() == old(scopes).len() + 1,
        !pushed ==> *final(scopes) == *old(scopes),
{
    let ghost before = scopes_view(*scopes);
    if is_loop || label.is_some() {
        let scope = Scope { label: copy_label(label), is_loop };
        let ghost added = scope@;
        scopes.push(scope);
        assert(scopes_view(*scopes) =~= before.push(added));
        true
    } else {
        false
    }
}

/// Leaves a loop or a block that was entered.
fn leave(scopes: &mut Vec<Scope>, pushed: bool, Ghost(before): Ghost<Seq<ScopeView>>)
    requires
        pushed ==> scopes_view(*old(scopes)).len() > 0 && scopes_view(*old(scopes)).drop_last()
            == before,
        !pushed ==> scopes_view(*old(scopes)) == before,
    ensures
        scopes_view(*final(scopes)) == before,
{
    if pushed {
        let _ = scopes.pop();
        assert(scopes_view(*scopes) =~= scopes_view(*old(scopes)).drop_last());
    }
}

/// Turns the exits of `expr` that leave the block into returns of tagged
/// results, and notes each in `found`. `scopes` holds the loops and labelled
/// blocks around `expr`, and is left as it was.
pub fn escape_expr(
    expr: Expr,
    scopes: &mut Vec<Scope>,
    found: &mut Vec<Variant>,
    output: &String,
    prefix: &String,
) -> (out: Expr)
    ensures
        scopes_view(*final(scopes)) == scopes_view(*old(scopes)),
        variants_view(*final(found)) == noted(
            variants_view(*old(found)),
            expr_events(expr@, scopes_view(*old(scopes))),
            prefix@,
        ),
        out@ == expr_escaped(expr@, scopes_view(*old(scopes)), output@, prefix@),
    decreases expr, 0nat,
{
    let ghost view = expr@;
    let ghost around = scopes_view(*scopes);
    let ghost start = variants_view(*found);
    match expr {
        Expr::Name(name) => Expr::Name(name),
        Expr::Verbatim(text) => Expr::Verbatim(text),
        Expr::Field { base, member } => {
            let out = Expr::Field {
                base: Box::new(escape_expr(*base, scopes, found, output, prefix)),
                member,
            };
            assert(out@ == expr_escaped(view, around, output@, prefix@));
            out
        },
        Expr::Reference { mutable, expr: target } => {
            let out = Expr::Reference {
                mutable,
                expr: Box::new(escape_expr(*target, scopes, found, output, prefix)),
            };
            assert(out@ == expr_escaped(view, around, output@, prefix@));
            out
        },
        Expr::Call { func, args } => {
            let ghost first = expr_events(func@, around);
            let ghost second = exprs_events(exprs_view(args), 0, around);
            let func = escape_expr(*func, scopes, found, output, prefix);
            let args = escape_exprs(args, scopes, found, output, prefix);
            proof {
                lemma_noted_append(start, first, second, prefix@);
            }
            let out = Expr::Call { func: Box::new(func), args };
            assert(out@ == expr_escaped(view, around, output@, prefix@));
            out
        },
        Expr::Form { form, parts } => {
            let out = Expr::Form {
                form,
                parts: escape_exprs(parts, scopes, found, output, prefix),
            };
            assert(out@ == expr_escaped(view, around, output@, prefix@));
            out
        },
        Expr::Let { pat, expr: scrutinee } => {
            let out = Expr::Let {
                pat,
                expr: Box::new(escape_expr(*scrutinee, scopes, found, output, prefix)),
            };
            assert(out@ == expr_escaped(view, around, output@, prefix@));
            out
        },
        Expr::If { cond, then_branch, else_branch } => {
            let ghost first = expr_events(cond@, around);
            let ghost second = block_events(then_branch@, around);
            let ghost third = opt_box_events(opt_box_view(else_branch), around);
            let cond = escape_expr(*cond, scopes, found, output, prefix);
            let then_branch = escape_block(then_branch, scopes, found, output, prefix);
            let else_branch = escape_opt_box(else_branch, scopes, found, output, prefix);
            proof {
                lemma_noted_append(start, first, second, prefix@);
                lemma_noted_append(start, first + second, third, prefix@);
            }
            let out = Expr::If { cond: Box::new(cond), then_branch, else_branch };
            assert(out@ == expr_escaped(view, around, output@, prefix@));
            out
        },
        Expr::While { label, cond, body } => {
            let ghost within = inside(around, label_view(label), true);
            let ghost first = expr_events(cond@, within);
            let ghost second = block_events(body@, within);
            let cond = escape_scoped_expr(&label, true, *cond, scopes, found, output, prefix);
            let body = escape_scoped_block(&label, true, body, scopes, found, output, prefix);
            proof {
                lemma_noted_append(start, first, second, prefix@);
            }
            let out = Expr::While { label, cond: Box::new(cond), body };
            assert(out@ == expr_escaped(view, around, output@, prefix@));
            out
        },
        Expr::ForLoop { label, pat, expr: iter, body } => {
            let ghost within = inside(around, label_view(label), true);
            let ghost first = expr_events(iter@, within);
            let ghost second = block_events(body@, within);
            let iter = escape_scoped_expr(&label, true, *iter, scopes, found, output, prefix);
            let body = escape_scoped_block(&label, true, body, scopes, found, output, prefix);
            proof {
                lemma_noted_append(start, first, second, prefix@);
            }
            let out = Expr::ForLoop { label, pat, expr: Box::new(iter), body };
            assert(out@ == expr_escaped(view, around, output@, prefix@));
            out
        },
        Expr::Loop { label, body } => {
            let body = escape_scoped_block(&label, true, body, scopes, found, output, prefix);
            let out = Expr::Loop { label, body };
            assert(out@ == expr_escaped(view, around, output@, prefix@));
            out
        },
        Expr::Block { label, block } => {
            let block = escape_scoped_block(&label, false, block, scopes, found, output, prefix);
            let out = Expr::Block { label, block };
            assert(out@ == expr_escaped(view, around, output@, prefix@));
            out
        },
        Expr::Match { expr: scrutinee, arms } => {
            let ghost first = expr_events(scrutinee@, around);
            let ghost second = arms_events(arms_view(arms), 0, around);
            let scrutinee = escape_expr(*scrutinee, scopes, found, output, prefix);
            let arms = escape_arms(arms, scopes, found, output, prefix);
            proof {
                lemma_noted_append(start, first, second, prefix@);
            }
            let out = Expr::Match { expr: Box::new(scrutinee), arms };
            assert(out@ == expr_escaped(view, around, output@, prefix@));
            out
        },
        Expr::Closure { prefix: head, inputs, output: result, expr: body } => Expr::Closure {
            prefix: head,
            inputs,
            output: result,
            expr: body,
        },
        Expr::Async { capture, block } => Expr::Async { capture, block },
        Expr::TryBlock { block } => {
            let out = Expr::TryBlock {
                block: escape_block(block, scopes, found, output, prefix),
            };
            assert(out@ == expr_escaped(view, around, output@, prefix@));
            out
        },
        Expr::Await { base } => {
            let out = Expr::Await {
                base: Box::new(escape_expr(*base, scopes, found, output, prefix)),
            };
            assert(out@ == expr_escaped(view, around, output@, prefix@));
            out
        },
        Expr::Try { expr: inner } => {
            let out = Expr::Try {
                expr: Box::new(escape_expr(*inner, scopes, found, output, prefix)),
            };
            assert(out@ == expr_escaped(view, around, output@, prefix@));
            out
        },
        Expr::Break { label, value } => {
            let out = escape_break(label, value, scopes, found, output, prefix);
            assert(out@ == expr_escaped(view, around, output@, prefix@));
            out
        },
        Expr::Continue { label } => {
            let out = escape_continue(label, scopes, found, output, prefix);
            assert(out@ == expr_escaped(view, around, output@, prefix@));
            out
        },
        Expr::Return { value } => {
            let out = escape_return(value, scopes, found, output, prefix);
            assert(out@ == expr_escaped(view, around, output@, prefix@));
            out
        },
    }
}

/// Turns the exits of an expression that stands inside a loop or block with
/// the label `label`.
fn escape_scoped_expr(
    label: &Option<String>,
    is_loop: bool,
    expr: Expr,
    scopes: &mut Vec<Scope>,
    found: &mut Vec<Variant>,
    output: &String,
    prefix: &String,
) -> (out: Expr)
    ensures
        scopes_view(*final(scopes)) == scopes_view(*old(scopes)),
        variants_view(*final(found)) == noted(
            variants_view(*old(found)),
            expr_events(expr@, inside(scopes_view(*old(scopes)), label_view(*label), is_loop)),
            prefix@,
        ),
        out@ == expr_escaped(
            expr@,
            inside(scopes_view(*old(scopes)), label_view(*label), is_loop),
            output@,
            prefix@,
        ),
    decreases expr, 1nat,
{
    let ghost around = scopes_view(*scopes);
    let pushed = enter(scopes, label, is_loop);
    let out = escape_expr(expr, scopes, found, output, prefix);
    proof {
        if pushed {
            assert(scopes_view(*scopes).drop_last() =~= around);
        }
    }
    leave(scopes, pushed, Ghost(around));
    out
}

/// Turns the exits of the body of a loop or block with the label `label`.
fn escape_scoped_block(
    label: &Option<String>,
    is_loop: bool,
    block: Block,
    scopes: &mut Vec<Scope>,
    found: &mut Vec<Variant>,
    output: &String,
    prefix: &String,
) -> (out: Block)
    ensures
        scopes_view(*final(scopes)) == scopes_view(*old(scopes)),
        variants_view(*final(found)) == noted(
            variants_view(*old(found)),
            block_events(block@, inside(scopes_view(*old(scopes)), label_view(*label), is_loop)),
            prefix@,
        ),
        out@ == block_escaped(
            block@,
            inside(scopes_view(*old(scopes)), label_view(*label), is_loop),
            output@,
            prefix@,
        ),
    decreases block, 2nat,
{
    let ghost around = scopes_view(*scopes);
    let pushed = enter(scopes, label, is_loop);
    let out = escape_block(block, scopes, found, output, prefix);
    proof {
        if pushed {
            assert(scopes_view(*scopes).drop_last() =~= around);
        }
    }
    leave(scopes, pushed, Ghost(around));
    out
}

/// Turns `break 'label value`.
fn escape_break(
    label: Option<String>,
    value: Option<Box<Expr>>,
    scopes: &mut Vec<Scope>,
    found: &mut Vec<Variant>,
    output: &String,
    prefix: &String,
) -> (out: Expr)
    ensures
        scopes_view(*final(scopes)) == scopes_view(*old(scopes)),
        variants_view(*final(found)) == noted(
            variants_view(*old(found)),
            expr_events(
                ExprView::Break { label: label_view(label), value: opt_box_view(value) },
                scopes_view(*old(scopes)),
            ),
            prefix@,
        ),
        out@ == expr_escaped(
            ExprView::Break { label: label_view(label), value: opt_box_view(value) },
            scopes_view(*old(scopes)),
            output@,
            prefix@,
        ),
    decreases value, 1nat,
{
    let ghost view = ExprView::Break { label: label_view(label), value: opt_box_view(value) };
    let ghost around = scopes_view(*scopes);
    let ghost start = variants_view(*found);
    let ghost first = opt_box_events(opt_box_view(value), around);
    let ghost second = event_of(view, around);
    let has_value = value.is_some();
    let value = escape_opt_box(value, scopes, found, output, prefix);
    let ghost middle = variants_view(*found);
    proof {
        lemma_noted_append(start, first, second, prefix@);
        lemma_noted_one(
            middle,
            Event { escape: EscapeView::Break(label_view(label)), has_value },
            prefix@,
        );
    }
    if label_leaves(&label, scopes) {
        let escape = Escape::Break(label);
        let out = make_escaping(&escape, value, output, prefix);
        note_escape(found, escape, has_value, prefix);
        out
    } else {
        Expr::Break { label, value }
    }
}

/// Turns `continue 'label`.
fn escape_continue(
    label: Option<String>,
    scopes: &mut Vec<Scope>,
    found: &mut Vec<Variant>,
    output: &String,
    prefix: &String,
) -> (out: Expr)
    ensures
        scopes_view(*final(scopes)) == scopes_view(*old(scopes)),
        variants_view(*final(found)) == noted(
            variants_view(*old(found)),
            expr_events(
                ExprView::Continue { label: label_view(label) },
                scopes_view(*old(scopes)),
            ),
            prefix@,
        ),
        out@ == expr_escaped(
            ExprView::Continue { label: label_view(label) },
            scopes_view(*old(scopes)),
            output@,
            prefix@,
        ),
{
    let ghost start = variants_view(*found);
    proof {
        lemma_noted_one(
            start,
            Event { escape: EscapeView::Continue(label_view(label)), has_value: false },
            prefix@,
        );
    }
    if label_leaves(&label, scopes) {
        let escape = Escape::Continue(label);
        let out = make_escaping(&escape, None, output, prefix);
        note_escape(found, escape, false, prefix);
        out
    } else {
        Expr::Continue { label }
    }
}

/// Turns `return value`.
fn escape_return(
    value: Option<Box<Expr>>,
    scopes: &mut Vec<Scope>,
    found: &mut Vec<Variant>,
    output: &String,
    prefix: &String,
) -> (out: Expr)
    ensures
        scopes_view(*final(scopes)) == scopes_view(*old(scopes)),
        variants_view(*final(found)) == noted(
            variants_view(*old(found)),
            expr_events(ExprView::Return { value: opt_box_view(value) }, scopes_view(*old(scopes))),
            prefix@,
        ),
        out@ == expr_escaped(
            ExprView::Return { value: opt_box_view(value) },
            scopes_view(*old(scopes)),
            output@,
            prefix@,
        ),
    decreases value, 1nat,
{
    let ghost view = ExprView::Return { value: opt_box_view(value) };
    let ghost around = scopes_view(*scopes);
    let ghost start = variants_view(*found);
    let ghost first = opt_box_events(opt_box_view(value), around);
    let ghost second = event_of(view, around);
    let has_value = value.is_some();
    let value = escape_opt_box(value, scopes, found, output, prefix);
    let ghost middle = variants_view(*found);
    proof {
        lemma_noted_append(start, first, second, prefix@);
        lemma_noted_one(middle, Event { escape: EscapeView::Return, has_value }, prefix@);
    }
    let escape = Escape::Return;
    let out = make_escaping(&escape, value, output, prefix);
    note_escape(found, escape, has_value, prefix);
    out
}

/// Turns the exits of an optional expression.
fn escape_opt_box(
    expr: Option<Box<Expr>>,
    scopes: &mut Vec<Scope>,
    found: &mut Vec<Variant>,
    output: &String,
    prefix: &String,
) -> (out: Option<Box<Expr>>)
    ensures
        scopes_view(*final(scopes)) == scopes_view(*old(scopes)),
        variants_view(*final(found)) == noted(
            variants_view(*old(found)),
            opt_box_events(opt_box_view(expr), scopes_view(*old(scopes))),
            prefix@,
        ),
        opt_box_view(out) == opt_box_escaped(
            opt_box_view(expr),
            scopes_view(*old(scopes)),
            output@,
            prefix@,
        ),
        (out is Some) == (expr is Some),
    decreases expr, 0nat,
{
    match expr {
        Some(inner) => Some(Box::new(escape_expr(*inner, scopes, found, output, prefix))),
        None => None,
    }
}

/// Turns the exits of an optional expression.
fn escape_opt(
    expr: Option<Expr>,
    scopes: &mut Vec<Scope>,
    found: &mut Vec<Variant>,
    output: &String,
    prefix: &String,
) -> (out: Option<Expr>)
    ensures
        scopes_view(*final(scopes)) == scopes_view(*old(scopes)),
        variants_view(*final(found)) == noted(
            variants_view(*old(found)),
            opt_events(opt_view(expr), scopes_view(*old(scopes))),
            prefix@,
        ),
        opt_view(out) == opt_escaped(opt_view(expr), scopes_view(*old(scopes)), output@, prefix@),
    decreases expr, 0nat,
{
    match expr {
        Some(inner) => Some(escape_expr(inner, scopes, found, output, prefix)),
        None => None,
    }
}

/// Turns the exits of each of `exprs`.
fn escape_exprs(
    exprs: Vec<Expr>,
    scopes: &mut Vec<Scope>,
    found: &mut Vec<Variant>,
    output: &String,
    prefix: &String,
) -> (out: Vec<Expr>)
    ensures
        scopes_view(*final(scopes)) == scopes_view(*old(scopes)),
        variants_view(*final(found)) == noted(
            variants_view(*old(found)),
            exprs_events(exprs_view(exprs), 0, scopes_view(*old(scopes))),
            prefix@,
        ),
        exprs_view(out) == exprs_escaped(
            exprs_view(exprs),
            scopes_view(*old(scopes)),
            output@,
            prefix@,
        ),
    decreases exprs, 0nat,
{
    let ghost views = exprs_view(exprs);
    let ghost around = scopes_view(*scopes);
    let ghost start = variants_view(*found);
    let mut out: Vec<Expr> = Vec::new();
    for item in it: exprs
        invariant
            it.seq() == exprs@,
            views == exprs_view(exprs),
            around == scopes_view(*scopes),
            out.len() == it.index(),
            noted(variants_view(*found), exprs_events(views, it.index() as nat, around), prefix@)
                == noted(start, exprs_events(views, 0, around), prefix@),
            forall|j: int|
                0 <= j < it.index() ==> (#[trigger] out[j])@ == expr_escaped(
                    views[j],
                    around,
                    output@,
                    prefix@,
                ),
    {
        let ghost at = it.index() as nat;
        let ghost before = variants_view(*found);
        assert(item@ == views[at as int]);
        proof {
            lemma_noted_append(
                before,
                expr_events(views[at as int], around),
                exprs_events(views, at + 1, around),
                prefix@,
            );
        }
        out.push(escape_expr(item, scopes, found, output, prefix));
    }
    assert(exprs_view(out) =~= exprs_escaped(views, around, output@, prefix@));
    out
}

/// Turns the exits of a block.
pub fn escape_block(
    block: Block,
    scopes: &mut Vec<Scope>,
    found: &mut Vec<Variant>,
    output: &String,
    prefix: &String,
) -> (out: Block)
    ensures
        scopes_view(*final(scopes)) == scopes_view(*old(scopes)),
        variants_view(*final(found)) == noted(
            variants_view(*old(found)),
            block_events(block@, scopes_view(*old(scopes))),
            prefix@,
        ),
        out@ == block_escaped(block@, scopes_view(*old(scopes)), output@, prefix@),
    decreases block, 1nat,
{
    Block { stmts: escape_stmts(block.stmts, scopes, found, output, prefix) }
}

/// Turns the exits of each of `stmts`.
fn escape_stmts(
    stmts: Vec<Stmt>,
    scopes: &mut Vec<Scope>,
    found: &mut Vec<Variant>,
    output: &String,
    prefix: &String,
) -> (out: Vec<Stmt>)
    ensures
        scopes_view(*final(scopes)) == scopes_view(*old(scopes)),
        variants_view(*final(found)) == noted(
            variants_view(*old(found)),
            stmts_events(stmts_view(stmts), 0, scopes_view(*old(scopes))),
            prefix@,
        ),
        stmts_view(out) == stmts_escaped(
            stmts_view(stmts),
            scopes_view(*old(scopes)),
            output@,
            prefix@,
        ),
    decreases stmts, 0nat,
{
    let ghost views = stmts_view(stmts);
    let ghost around = scopes_view(*scopes);
    let ghost start = variants_view(*found);
    let mut out: Vec<Stmt> = Vec::new();
    for item in it: stmts
        invariant
            it.seq() == stmts@,
            views == stmts_view(stmts),
            around == scopes_view(*scopes),
            out.len() == it.index(),
            noted(variants_view(*found), stmts_events(views, it.index() as nat, around), prefix@)
                == noted(start, stmts_events(views, 0, around), prefix@),
            forall|j: int|
                0 <= j < it.index() ==> (#[trigger] out[j])@ == stmt_escaped(
                    views[j],
                    around,
                    output@,
                    prefix@,
                ),
    {
        let ghost at = it.index() as nat;
        let ghost before = variants_view(*found);
        assert(item@ == views[at as int]);
        proof {
            lemma_noted_append(
                before,
                stmt_events(views[at as int], around),
                stmts_events(views, at + 1, around),
                prefix@,
            );
        }
        out.push(escape_stmt(item, scopes, found, output, prefix));
    }
    assert(stmts_view(out) =~= stmts_escaped(views, around, output@, prefix@));
    out
}

/// Turns the exits of a statement.
fn escape_stmt(
    stmt: Stmt,
    scopes: &mut Vec<Scope>,
    found: &mut Vec<Variant>,
    output: &String,
    prefix: &String,
) -> (out: Stmt)
    ensures
        scopes_view(*final(scopes)) == scopes_view(*old(scopes)),
        variants_view(*final(found)) == noted(
            variants_view(*old(found)),
            stmt_events(stmt@, scopes_view(*old(scopes))),
            prefix@,
        ),
        out@ == stmt_escaped(stmt@, scopes_view(*old(scopes)), output@, prefix@),
    decreases stmt, 0nat,
{
    let ghost around = scopes_view(*scopes);
    let ghost start = variants_view(*found);
    match stmt {
        Stmt::Local { attrs, pat, init, diverge } => {
            let ghost first = opt_events(opt_view(init), around);
            let ghost second = opt_events(opt_view(diverge), around);
            let init = escape_opt(init, scopes, found, output, prefix);
            let diverge = escape_opt(diverge, scopes, found, output, prefix);
            proof {
                lemma_noted_append(start, first, second, prefix@);
            }
            Stmt::Local { attrs, pat, init, diverge }
        },
        Stmt::Item(text) => Stmt::Item(text),
        Stmt::Expr { expr, semi } => Stmt::Expr {
            expr: escape_expr(expr, scopes, found, output, prefix),
            semi,
        },
    }
}

/// Turns the exits of each of `arms`.
fn escape_arms(
    arms: Vec<Arm>,
    scopes: &mut Vec<Scope>,
    found: &mut Vec<Variant>,
    output: &String,
    prefix: &String,
) -> (out: Vec<Arm>)
    ensures
        scopes_view(*final(scopes)) == scopes_view(*old(scopes)),
        variants_view(*final(found)) == noted(
            variants_view(*old(found)),
            arms_events(arms_view(arms), 0, scopes_view(*old(scopes))),
            prefix@,
        ),
        arms_view(out) == arms_escaped(
            arms_view(arms),
            scopes_view(*old(scopes)),
            output@,
            prefix@,
        ),
    decreases arms, 0nat,
{
    let ghost views = arms_view(arms);
    let ghost around = scopes_view(*scopes);
    let ghost start = variants_view(*found);
    let mut out: Vec<Arm> = Vec::new();
    for item in it: arms
        invariant
            it.seq() == arms@,
            views == arms_view(arms),
            around == scopes_view(*scopes),
            out.len() == it.index(),
            noted(variants_view(*found), arms_events(views, it.index() as nat, around), prefix@)
                == noted(start, arms_events(views, 0, around), prefix@),
            forall|j: int|
                0 <= j < it.index() ==> (#[trigger] out[j])@ == arm_escaped(
                    views[j],
                    around,
                    output@,
                    prefix@,
                ),
    {
        let ghost at = it.index() as nat;
        let ghost before = variants_view(*found);
        assert(item@ == views[at as int]);
        let Arm { attrs, pat, guard, body } = item;
        let ghost first = opt_events(opt_view(guard), around);
        let ghost second = expr_events(body@, around);
        let guard = escape_opt(guard, scopes, found, output, prefix);
        let body = escape_expr(body, scopes, found, output, prefix);
        proof {
            lemma_noted_append(before, first, second, prefix@);
            lemma_noted_append(
                before,
                arm_events(views[at as int], around),
                arms_events(views, at + 1, around),
                prefix@,
            );
        }
        out.push(Arm { attrs, pat, guard, body });
    }
    assert(arms_view(out) =~= arms_escaped(views, around, output@, prefix@));
    out
}

/// Turns every exit that leaves one of the blocks into a return of a variant
/// of the tagged result `output_type`, and returns the table of the
/// variants, each named after `private_ident` and its exit, in the order in
/// which the walk first met the exits.
pub fn replace_breaks(
    blocks: &mut Vec<Block>,
    output_type: &String,
    private_ident: &String,
) -> (found: Vec<Variant>)
    ensures
        blocks_view(*final(blocks)) == blocks_escaped(
            blocks_view(*old(blocks)),
            output_type@,
            private_ident@,
        ),
        variants_view(found) == noted(
            Seq::empty(),
            blocks_events(blocks_view(*old(blocks)), 0),
            private_ident@,
        ),
        table_sound(variants_view(found), 0, private_ident@),
        forall|i: int|
            0 <= i < final(blocks).len() ==> block_settled(
                #[trigger] blocks_view(*final(blocks))[i],
                Seq::empty(),
            ),
{
    let ghost views = blocks_view(*blocks);
    proof {
        lemma_noted_sound(Seq::empty(), blocks_events(views, 0), private_ident@);
    }
    let mut taken: Vec<Block> = Vec::new();
    core::mem::swap(blocks, &mut taken);
    let mut found: Vec<Variant> = Vec::new();
    let mut scopes: Vec<Scope> = Vec::new();
    assert(variants_view(found) =~= Seq::empty());
    assert(scopes_view(scopes) =~= Seq::empty());
    for block in it: taken
        invariant
            it.seq() == taken@,
            views == blocks_view(taken),
            blocks.len() == it.index(),
            scopes_view(scopes) == Seq::<ScopeView>::empty(),
            noted(variants_view(found), blocks_events(views, it.index() as nat), private_ident@)
                == noted(Seq::empty(), blocks_events(views, 0), private_ident@),
            forall|j: int|
                0 <= j < it.index() ==> (#[trigger] blocks[j])@ == block_escaped(
                    views[j],
                    Seq::empty(),
                    output_type@,
                    private_ident@,
                ),
    {
        let ghost at = it.index() as nat;
        let ghost before = variants_view(found);
        assert(block@ == views[at as int]);
        proof {
            lemma_noted_append(
                before,
                block_events(views[at as int], Seq::empty()),
                blocks_events(views, at + 1),
                private_ident@,
            );
        }
        let block = escape_block(block, &mut scopes, &mut found, output_type, private_ident);
        blocks.push(block);
    }
    assert(blocks_view(*blocks) =~= blocks_escaped(views, output_type@, private_ident@));
    assert forall|i: int| 0 <= i < blocks.len() implies block_settled(
        #[trigger] blocks_view(*blocks)[i],
        Seq::empty(),
    ) by {
        lemma_block_escaped_settled(views[i], Seq::empty(), output_type@, private_ident@);
    }
    found
}

/// The return that an exit becomes holds no exit but those of its payload.
proof fn lemma_escaping_settled(
    escape: EscapeView,
    value: Option<Box<ExprView>>,
    scopes: Seq<ScopeView>,
    output: Name,
    prefix: Name,
)
    requires
        value matches Some(inner) ==> settled(*inner, scopes),
    ensures
        settled(escaping(escape, value, output, prefix), scopes),
{
    let payload = match value {
        Some(inner) => *inner,
        None => unit(),
    };
    assert(settled(unit(), scopes));
    let func = ExprView::Verbatim(output + "::"@ + variant_name_of(escape, prefix));
    assert(settled(func, scopes));
    let call = ExprView::Call { func: Box::new(func), args: seq![payload] };
    assert(settled(call, scopes)) by {
        assert(call->Call_args[0] == payload);
    }
    assert(escaping(escape, value, output, prefix) == ExprView::Return {
        value: Some(Box::new(call)),
    });
}

/// Whether no `break` and no `continue` of the expression leaves the block:
/// each stands under a loop or a labelled block of the block that it exits
/// from, or inside a closure or an `async` block, which are not entered.
/// `scopes` holds the loops and labelled blocks around the expression.
pub open spec fn settled(expr: ExprView, scopes: Seq<ScopeView>) -> bool
    decreases expr, 0nat,
{
    match expr {
        ExprView::Name(name) => true,
        ExprView::Verbatim(text) => true,
        ExprView::Field { base, member } => settled(*base, scopes),
        ExprView::Reference { mutable, expr: target } => settled(*target, scopes),
        ExprView::Call { func, args } => {
            &&& settled(*func, scopes)
            &&& forall|i: int| 0 <= i < args.len() ==> settled(#[trigger] args[i], scopes)
        },
        ExprView::Form { form, parts } => forall|i: int|
            0 <= i < parts.len() ==> settled(#[trigger] parts[i], scopes),
        ExprView::Let { pat, expr: scrutinee } => settled(*scrutinee, scopes),
        ExprView::If { cond, then_branch, else_branch } => {
            &&& settled(*cond, scopes)
            &&& block_settled(then_branch, scopes)
            &&& else_branch matches Some(inner) ==> settled(*inner, scopes)
        },
        ExprView::While { label, cond, body } => {
            &&& settled(*cond, inside(scopes, label, true))
            &&& block_settled(body, inside(scopes, label, true))
        },
        ExprView::ForLoop { label, pat, expr: iter, body } => {
            &&& settled(*iter, inside(scopes, label, true))
            &&& block_settled(body, inside(scopes, label, true))
        },
        ExprView::Loop { label, body } => block_settled(body, inside(scopes, label, true)),
        ExprView::Block { label, block } => block_settled(block, inside(scopes, label, false)),
        ExprView::Match { expr: scrutinee, arms } => {
            &&& settled(*scrutinee, scopes)
            &&& forall|i: int| 0 <= i < arms.len() ==> arm_settled(#[trigger] arms[i], scopes)
        },
        ExprView::Closure { prefix, inputs, output, expr: body } => true,
        ExprView::Async { capture, block } => true,
        ExprView::TryBlock { block } => block_settled(block, scopes),
        ExprView::Await { base } => settled(*base, scopes),
        ExprView::Try { expr: inner } => settled(*inner, scopes),
        ExprView::Break { label, value } => {
            &&& !leaves(EscapeView::Break(label), scopes)
            &&& value matches Some(inner) ==> settled(*inner, scopes)
        },
        ExprView::Continue { label } => !leaves(EscapeView::Continue(label), scopes),
        ExprView::Return { value } => value matches Some(inner) ==> settled(*inner, scopes),
    }
}

/// Whether no `break` and no `continue` of the block leaves it.
pub open spec fn block_settled(block: BlockView, scopes: Seq<ScopeView>) -> bool
    decreases block, 0nat,
{
    forall|i: int| 0 <= i < block.stmts.len() ==> stmt_settled(#[trigger] block.stmts[i], scopes)
}

/// Whether no `break` and no `continue` of the statement leaves the block.
pub open spec fn stmt_settled(stmt: StmtView, scopes: Seq<ScopeView>) -> bool
    decreases stmt, 0nat,
{
    match stmt {
        StmtView::Local { attrs, pat, init, diverge } => {
            &&& init matches Some(inner) ==> settled(inner, scopes)
            &&& diverge matches Some(inner) ==> settled(inner, scopes)
        },
        StmtView::Item(text) => true,
        StmtView::Expr { expr, semi } => settled(expr, scopes),
    }
}

/// Whether no `break` and no `continue` of the match arm leaves the block.
pub open spec fn arm_settled(arm: ArmView, scopes: Seq<ScopeView>) -> bool
    decreases arm, 0nat,
{
    &&& arm.guard matches Some(inner) ==> settled(inner, scopes)
    &&& settled(arm.body, scopes)
}

/// Once the exits are turned, no `break` and no `continue` leaves the block:
/// what is left of non-local exits are returns.
pub proof fn lemma_escaped_settled(
    expr: ExprView,
    scopes: Seq<ScopeView>,
    output: Name,
    prefix: Name,
)
    ensures
        settled(expr_escaped(expr, scopes, output, prefix), scopes),
    decreases expr, 0nat,
{
    match expr {
        ExprView::Name(name) => {},
        ExprView::Verbatim(text) => {},
        ExprView::Field { base, member } => {
            lemma_escaped_settled(*base, scopes, output, prefix);
            assert(settled(expr_escaped(expr, scopes, output, prefix), scopes));
        },
        ExprView::Reference { mutable, expr: target } => {
            lemma_escaped_settled(*target, scopes, output, prefix);
            assert(settled(expr_escaped(expr, scopes, output, prefix), scopes));
        },
        ExprView::Call { func, args } => {
            lemma_escaped_settled(*func, scopes, output, prefix);
            assert forall|i: int| 0 <= i < args.len() implies settled(
                #[trigger] exprs_escaped(args, scopes, output, prefix)[i],
                scopes,
            ) by {
                lemma_escaped_settled(args[i], scopes, output, prefix);
                assert(exprs_escaped(args, scopes, output, prefix)[i]
                    == expr_escaped(args[i], scopes, output, prefix));
            }
            assert(settled(expr_escaped(expr, scopes, output, prefix), scopes));
        },
        ExprView::Form { form, parts } => {
            assert forall|i: int| 0 <= i < parts.len() implies settled(
                #[trigger] exprs_escaped(parts, scopes, output, prefix)[i],
                scopes,
            ) by {
                lemma_escaped_settled(parts[i], scopes, output, prefix);
                assert(exprs_escaped(parts, scopes, output, prefix)[i]
                    == expr_escaped(parts[i], scopes, output, prefix));
            }
            assert(settled(expr_escaped(expr, scopes, output, prefix), scopes));
        },
        ExprView::Let { pat, expr: scrutinee } => {
            lemma_escaped_settled(*scrutinee, scopes, output, prefix);
            assert(settled(expr_escaped(expr, scopes, output, prefix), scopes));
        },
        ExprView::If { cond, then_branch, else_branch } => {
            lemma_escaped_settled(*cond, scopes, output, prefix);
            lemma_block_escaped_settled(then_branch, scopes, output, prefix);
            match else_branch {
                Some(inner) => {
                    lemma_escaped_settled(*inner, scopes, output, prefix);
                    assert(opt_box_escaped(else_branch, scopes, output, prefix)
                        == Some(Box::new(expr_escaped(*inner, scopes, output, prefix))));
                },
                None => {
                    assert(opt_box_escaped(else_branch, scopes, output, prefix) is None);
                },
            }
            assert(settled(expr_escaped(expr, scopes, output, prefix), scopes));
        },
        ExprView::While { label, cond, body } => {
            lemma_escaped_settled(*cond, inside(scopes, label, true), output, prefix);
            lemma_block_escaped_settled(body, inside(scopes, label, true), output, prefix);
            assert(settled(expr_escaped(expr, scopes, output, prefix), scopes));
        },
        ExprView::ForLoop { label, pat, expr: iter, body } => {
            lemma_escaped_settled(*iter, inside(scopes, label, true), output, prefix);
            lemma_block_escaped_settled(body, inside(scopes, label, true), output, prefix);
            assert(settled(expr_escaped(expr, scopes, output, prefix), scopes));
        },
        ExprView::Loop { label, body } => {
            lemma_block_escaped_settled(body, inside(scopes, label, true), output, prefix);
            assert(settled(expr_escaped(expr, scopes, output, prefix), scopes));
        },
        ExprView::Block { label, block } => {
            lemma_block_escaped_settled(block, inside(scopes, label, false), output, prefix);
            assert(settled(expr_escaped(expr, scopes, output, prefix), scopes));
        },
        ExprView::Match { expr: scrutinee, arms } => {
            lemma_escaped_settled(*scrutinee, scopes, output, prefix);
            assert forall|i: int| 0 <= i < arms.len() implies arm_settled(
                #[trigger] arms_escaped(arms, scopes, output, prefix)[i],
                scopes,
            ) by {
                match arms[i].guard {
                    Some(guard) => {
                        lemma_escaped_settled(guard, scopes, output, prefix);
                    },
                    None => {},
                }
                lemma_escaped_settled(arms[i].body, scopes, output, prefix);
                assert(arms_escaped(arms, scopes, output, prefix)[i]
                    == arm_escaped(arms[i], scopes, output, prefix));
            }
            assert(settled(expr_escaped(expr, scopes, output, prefix), scopes));
        },
        ExprView::Closure { prefix: head, inputs, output: result, expr: body } => {},
        ExprView::Async { capture, block } => {},
        ExprView::TryBlock { block } => {
            lemma_block_escaped_settled(block, scopes, output, prefix);
            assert(settled(expr_escaped(expr, scopes, output, prefix), scopes));
        },
        ExprView::Await { base } => {
            lemma_escaped_settled(*base, scopes, output, prefix);
            assert(settled(expr_escaped(expr, scopes, output, prefix), scopes));
        },
        ExprView::Try { expr: inner } => {
            lemma_escaped_settled(*inner, scopes, output, prefix);
            assert(settled(expr_escaped(expr, scopes, output, prefix), scopes));
        },
        ExprView::Break { label, value } => {
            match value {
                Some(inner) => {
                    lemma_escaped_settled(*inner, scopes, output, prefix);
                    assert(opt_box_escaped(value, scopes, output, prefix)
                        == Some(Box::new(expr_escaped(*inner, scopes, output, prefix))));
                },
                None => {
                    assert(opt_box_escaped(value, scopes, output, prefix) is None);
                },
            }
            lemma_escaping_settled(
                EscapeView::Break(label),
                opt_box_escaped(value, scopes, output, prefix),
                scopes,
                output,
                prefix,
            );
            assert(settled(expr_escaped(expr, scopes, output, prefix), scopes));
        },
        ExprView::Continue { label } => {
            lemma_escaping_settled(EscapeView::Continue(label), None, scopes, output, prefix);
            assert(settled(expr_escaped(expr, scopes, output, prefix), scopes));
        },
        ExprView::Return { value } => {
            match value {
                Some(inner) => {
                    lemma_escaped_settled(*inner, scopes, output, prefix);
                    assert(opt_box_escaped(value, scopes, output, prefix)
                        == Some(Box::new(expr_escaped(*inner, scopes, output, prefix))));
                },
                None => {
                    assert(opt_box_escaped(value, scopes, output, prefix) is None);
                },
            }
            lemma_escaping_settled(
                EscapeView::Return,
                opt_box_escaped(value, scopes, output, prefix),
                scopes,
                output,
                prefix,
            );
            assert(settled(expr_escaped(expr, scopes, output, prefix), scopes));
        },
    }
}

/// Once the exits of a block are turned, no `break` and no `continue` leaves
/// it.
pub proof fn lemma_block_escaped_settled(
    block: BlockView,
    scopes: Seq<ScopeView>,
    output: Name,
    prefix: Name,
)
    ensures
        block_settled(block_escaped(block, scopes, output, prefix), scopes),
    decreases block, 0nat,
{
    let turned = block_escaped(block, scopes, output, prefix);
    assert forall|i: int| 0 <= i < turned.stmts.len() implies stmt_settled(
        #[trigger] turned.stmts[i],
        scopes,
    ) by {
        lemma_stmt_escaped_settled(block.stmts[i], scopes, output, prefix);
    }
}

/// Once the exits of a statement are turned, no `break` and no `continue`
/// leaves the block.
proof fn lemma_stmt_escaped_settled(
    stmt: StmtView,
    scopes: Seq<ScopeView>,
    output: Name,
    prefix: Name,
)
    ensures
        stmt_settled(stmt_escaped(stmt, scopes, output, prefix), scopes),
    decreases stmt, 0nat,
{
    match stmt {
        StmtView::Local { attrs, pat, init, diverge } => {
            match init {
                Some(inner) => {
                    lemma_escaped_settled(inner, scopes, output, prefix);
                },
                None => {},
            }
            match diverge {
                Some(inner) => {
                    lemma_escaped_settled(inner, scopes, output, prefix);
                },
                None => {},
            }
        },
        StmtView::Item(text) => {},
        StmtView::Expr { expr, semi } => {
            lemma_escaped_settled(expr, scopes, output, prefix);
        },
    }
}

} // verus!
