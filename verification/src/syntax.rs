//! The syntax tree that the passes of a join work on, and its mathematical
//! model.
//!
//! The tree keeps apart exactly the forms that some pass treats in a way of
//! its own: names and field chains, borrows, calls, the constructs that open a
//! scope or bind names, loops and labelled blocks, suspension points, fallible
//! steps and non-local exits. Every other form is a [`Form`] with its
//! sub-expressions in source order, or a leaf of opaque source text.
//!
//! Each executable type has a view made of `Seq`s; all contracts of the crate
//! are stated over the views.

use vstd::prelude::*;

verus! {

/// One step of a field chain.
#[derive(Debug, Clone, PartialEq, Eq)]
pub enum Member {
    /// `.name`
    Named(String),
    /// `.0`, `.1`, ...
    Unnamed(usize),
}

/// A pattern, as far as the names that it binds are concerned.
#[derive(Debug, PartialEq, Eq)]
pub enum Pat {
    /// `name`, `mut name`, `ref name`, `name @ subpat`.
    Ident { name: String, by_ref: bool, mutable: bool, subpat: Option<Box<Pat>> },
    /// `path(elem, ..)`
    TupleStruct { path: String, elems: Vec<Pat> },
    /// Any other pattern that has sub-patterns: `syntax` says which, `parts`
    /// holds the sub-patterns in source order.
    Other { syntax: String, parts: Vec<Pat> },
    /// A pattern without sub-patterns, as source text: `_`, a literal, a
    /// path, a range.
    Verbatim(String),
}

/// The forms of expression of which no pass needs to know more than the
/// sub-expressions.
#[derive(Debug, Clone, PartialEq, Eq)]
pub enum Form {
    /// `(a)`
    Paren,
    /// `*a`
    Deref,
    /// `(a, b, ..)`; without parts, the unit value.
    Tuple,
    /// `a = b`
    Assign,
    /// Any other form, described by opaque text.
    Other(String),
}

/// An expression.
#[derive(Debug, PartialEq, Eq)]
pub enum Expr {
    /// A path that is one plain identifier.
    Name(String),
    /// An expression without sub-expressions, as source text: a literal, a
    /// macro call, a qualified or generic path.
    Verbatim(String),
    /// `base.member`
    Field { base: Box<Expr>, member: Member },
    /// `&expr` or `&mut expr`
    Reference { mutable: bool, expr: Box<Expr> },
    /// `func(args)`
    Call { func: Box<Expr>, args: Vec<Expr> },
    /// A form with sub-expressions and nothing else of interest.
    Form { form: Form, parts: Vec<Expr> },
    /// `let pat = expr`, as it stands in a condition.
    Let { pat: Pat, expr: Box<Expr> },
    /// `if cond { .. } else ..`
    If { cond: Box<Expr>, then_branch: Block, else_branch: Option<Box<Expr>> },
    /// `'label: while cond { .. }`
    While { label: Option<String>, cond: Box<Expr>, body: Block },
    /// `'label: for pat in expr { .. }`
    ForLoop { label: Option<String>, pat: Pat, expr: Box<Expr>, body: Block },
    /// `'label: loop { .. }`
    Loop { label: Option<String>, body: Block },
    /// `'label: { .. }`
    Block { label: Option<String>, block: Block },
    /// `match expr { arms }`
    Match { expr: Box<Expr>, arms: Vec<Arm> },
    /// `prefix |inputs| output expr`; `prefix` and `output` are opaque text.
    Closure { prefix: String, inputs: Vec<Pat>, output: String, expr: Box<Expr> },
    /// `async { .. }` or `async move { .. }`
    Async { capture: bool, block: Block },
    /// `try { .. }`
    TryBlock { block: Block },
    /// `base.await`
    Await { base: Box<Expr> },
    /// `expr?`
    Try { expr: Box<Expr> },
    /// `break 'label value`
    Break { label: Option<String>, value: Option<Box<Expr>> },
    /// `continue 'label`
    Continue { label: Option<String> },
    /// `return value`
    Return { value: Option<Box<Expr>> },
}

/// A brace-delimited sequence of statements.
#[derive(Debug, PartialEq, Eq)]
pub struct Block {
    pub stmts: Vec<Stmt>,
}

/// A statement of a block.
#[derive(Debug, PartialEq, Eq)]
pub enum Stmt {
    /// `attrs let pat = init else diverge;`
    Local { attrs: String, pat: Pat, init: Option<Expr>, diverge: Option<Expr> },
    /// A nested item or a statement macro, as source text.
    Item(String),
    /// An expression, with or without a semicolon behind it.
    Expr { expr: Expr, semi: bool },
}

/// An arm of a `match`.
#[derive(Debug, PartialEq, Eq)]
pub struct Arm {
    pub attrs: String,
    pub pat: Pat,
    pub guard: Option<Expr>,
    pub body: Expr,
}

/// An identifier, as the sequence of its characters.
pub type Name = Seq<char>;

/// Model of [`Member`].
pub enum MemberView {
    Named(Name),
    Unnamed(nat),
}

/// Model of [`Pat`].
pub enum PatView {
    Ident { name: Name, by_ref: bool, mutable: bool, subpat: Option<Box<PatView>> },
    TupleStruct { path: Seq<char>, elems: Seq<PatView> },
    Other { syntax: Seq<char>, parts: Seq<PatView> },
    Verbatim(Seq<char>),
}

/// Model of [`Form`].
pub enum FormView {
    Paren,
    Deref,
    Tuple,
    Assign,
    Other(Seq<char>),
}

/// Model of [`Expr`].
pub enum ExprView {
    Name(Name),
    Verbatim(Seq<char>),
    Field { base: Box<ExprView>, member: MemberView },
    Reference { mutable: bool, expr: Box<ExprView> },
    Call { func: Box<ExprView>, args: Seq<ExprView> },
    Form { form: FormView, parts: Seq<ExprView> },
    Let { pat: PatView, expr: Box<ExprView> },
    If { cond: Box<ExprView>, then_branch: BlockView, else_branch: Option<Box<ExprView>> },
    While { label: Option<Name>, cond: Box<ExprView>, body: BlockView },
    ForLoop { label: Option<Name>, pat: PatView, expr: Box<ExprView>, body: BlockView },
    Loop { label: Option<Name>, body: BlockView },
    Block { label: Option<Name>, block: BlockView },
    Match { expr: Box<ExprView>, arms: Seq<ArmView> },
    Closure { prefix: Seq<char>, inputs: Seq<PatView>, output: Seq<char>, expr: Box<ExprView> },
    Async { capture: bool, block: BlockView },
    TryBlock { block: BlockView },
    Await { base: Box<ExprView> },
    Try { expr: Box<ExprView> },
    Break { label: Option<Name>, value: Option<Box<ExprView>> },
    Continue { label: Option<Name> },
    Return { value: Option<Box<ExprView>> },
}

/// Model of [`Block`].
pub struct BlockView {
    pub stmts: Seq<StmtView>,
}

/// Model of [`Stmt`].
pub enum StmtView {
    Local { attrs: Seq<char>, pat: PatView, init: Option<ExprView>, diverge: Option<ExprView> },
    Item(Seq<char>),
    Expr { expr: ExprView, semi: bool },
}

/// Model of [`Arm`].
pub struct ArmView {
    pub attrs: Seq<char>,
    pub pat: PatView,
    pub guard: Option<ExprView>,
    pub body: ExprView,
}

impl View for Member {
    type V = MemberView;

    open spec fn view(&self) -> MemberView {
        match self {
            Member::Named(name) => MemberView::Named(name@),
            Member::Unnamed(index) => MemberView::Unnamed(*index as nat),
        }
    }
}

impl View for Form {
    type V = FormView;

    open spec fn view(&self) -> FormView {
        match self {
            Form::Paren => FormView::Paren,
            Form::Deref => FormView::Deref,
            Form::Tuple => FormView::Tuple,
            Form::Assign => FormView::Assign,
            Form::Other(syntax) => FormView::Other(syntax@),
        }
    }
}

/// The model of an optional label.
pub open spec fn label_view(label: Option<String>) -> Option<Name> {
    match label {
        Some(name) => Some(name@),
        None => None,
    }
}

/// The model of a pattern.
pub open spec fn pat_view(pat: Pat) -> PatView
    decreases pat,
{
    match pat {
        Pat::Ident { name, by_ref, mutable, subpat } => PatView::Ident {
            name: name@,
            by_ref,
            mutable,
            subpat: match subpat {
                Some(sub) => Some(Box::new(pat_view(*sub))),
                None => None,
            },
        },
        Pat::TupleStruct { path, elems } => PatView::TupleStruct {
            path: path@,
            elems: pats_view(elems),
        },
        Pat::Other { syntax, parts } => PatView::Other { syntax: syntax@, parts: pats_view(parts) },
        Pat::Verbatim(text) => PatView::Verbatim(text@),
    }
}

/// The models of a list of patterns, in order.
pub open spec fn pats_view(pats: Vec<Pat>) -> Seq<PatView>
    decreases pats,
{
    Seq::new(
        pats.len() as nat,
        |i: int|
            if 0 <= i < pats.len() {
                pat_view(pats[i])
            } else {
                PatView::Verbatim(Seq::empty())
            },
    )
}

/// The model of an optional boxed expression.
pub open spec fn opt_box_view(expr: Option<Box<Expr>>) -> Option<Box<ExprView>>
    decreases expr,
{
    match expr {
        Some(value) => Some(Box::new(expr_view(*value))),
        None => None,
    }
}

/// The model of an optional expression.
pub open spec fn opt_view(expr: Option<Expr>) -> Option<ExprView>
    decreases expr,
{
    match expr {
        Some(value) => Some(expr_view(value)),
        None => None,
    }
}

/// The model of an expression.
pub open spec fn expr_view(expr: Expr) -> ExprView
    decreases expr,
{
    match expr {
        Expr::Name(name) => ExprView::Name(name@),
        Expr::Verbatim(text) => ExprView::Verbatim(text@),
        Expr::Field { base, member } => ExprView::Field {
            base: Box::new(expr_view(*base)),
            member: member@,
        },
        Expr::Reference { mutable, expr } => ExprView::Reference {
            mutable,
            expr: Box::new(expr_view(*expr)),
        },
        Expr::Call { func, args } => ExprView::Call {
            func: Box::new(expr_view(*func)),
            args: exprs_view(args),
        },
        Expr::Form { form, parts } => ExprView::Form { form: form@, parts: exprs_view(parts) },
        Expr::Let { pat, expr } => ExprView::Let {
            pat: pat_view(pat),
            expr: Box::new(expr_view(*expr)),
        },
        Expr::If { cond, then_branch, else_branch } => ExprView::If {
            cond: Box::new(expr_view(*cond)),
            then_branch: block_view(then_branch),
            else_branch: opt_box_view(else_branch),
        },
        Expr::While { label, cond, body } => ExprView::While {
            label: label_view(label),
            cond: Box::new(expr_view(*cond)),
            body: block_view(body),
        },
        Expr::ForLoop { label, pat, expr, body } => ExprView::ForLoop {
            label: label_view(label),
            pat: pat_view(pat),
            expr: Box::new(expr_view(*expr)),
            body: block_view(body),
        },
        Expr::Loop { label, body } => ExprView::Loop {
            label: label_view(label),
            body: block_view(body),
        },
        Expr::Block { label, block } => ExprView::Block {
            label: label_view(label),
            block: block_view(block),
        },
        Expr::Match { expr, arms } => ExprView::Match {
            expr: Box::new(expr_view(*expr)),
            arms: arms_view(arms),
        },
        Expr::Closure { prefix, inputs, output, expr } => ExprView::Closure {
            prefix: prefix@,
            inputs: pats_view(inputs),
            output: output@,
            expr: Box::new(expr_view(*expr)),
        },
        Expr::Async { capture, block } => ExprView::Async { capture, block: block_view(block) },
        Expr::TryBlock { block } => ExprView::TryBlock { block: block_view(block) },
        Expr::Await { base } => ExprView::Await { base: Box::new(expr_view(*base)) },
        Expr::Try { expr } => ExprView::Try { expr: Box::new(expr_view(*expr)) },
        Expr::Break { label, value } => ExprView::Break {
            label: label_view(label),
            value: opt_box_view(value),
        },
        Expr::Continue { label } => ExprView::Continue { label: label_view(label) },
        Expr::Return { value } => ExprView::Return { value: opt_box_view(value) },
    }
}

/// The models of a list of expressions, in order.
pub open spec fn exprs_view(exprs: Vec<Expr>) -> Seq<ExprView>
    decreases exprs,
{
    Seq::new(
        exprs.len() as nat,
        |i: int|
            if 0 <= i < exprs.len() {
                expr_view(exprs[i])
            } else {
                ExprView::Verbatim(Seq::empty())
            },
    )
}

/// The model of a block.
pub open spec fn block_view(block: Block) -> BlockView
    decreases block,
{
    BlockView { stmts: stmts_view(block.stmts) }
}

/// The models of a list of statements, in order.
pub open spec fn stmts_view(stmts: Vec<Stmt>) -> Seq<StmtView>
    decreases stmts,
{
    Seq::new(
        stmts.len() as nat,
        |i: int|
            if 0 <= i < stmts.len() {
                stmt_view(stmts[i])
            } else {
                StmtView::Item(Seq::empty())
            },
    )
}

/// The model of a statement.
pub open spec fn stmt_view(stmt: Stmt) -> StmtView
    decreases stmt,
{
    match stmt {
        Stmt::Local { attrs, pat, init, diverge } => StmtView::Local {
            attrs: attrs@,
            pat: pat_view(pat),
            init: opt_view(init),
            diverge: opt_view(diverge),
        },
        Stmt::Item(text) => StmtView::Item(text@),
        Stmt::Expr { expr, semi } => StmtView::Expr { expr: expr_view(expr), semi },
    }
}

/// The model of a match arm.
pub open spec fn arm_view(arm: Arm) -> ArmView
    decreases arm,
{
    ArmView {
        attrs: arm.attrs@,
        pat: pat_view(arm.pat),
        guard: opt_view(arm.guard),
        body: expr_view(arm.body),
    }
}

/// The models of a list of match arms, in order.
pub open spec fn arms_view(arms: Vec<Arm>) -> Seq<ArmView>
    decreases arms,
{
    Seq::new(
        arms.len() as nat,
        |i: int|
            if 0 <= i < arms.len() {
                arm_view(arms[i])
            } else {
                ArmView {
                    attrs: Seq::empty(),
                    pat: PatView::Verbatim(Seq::empty()),
                    guard: None,
                    body: ExprView::Verbatim(Seq::empty()),
                }
            },
    )
}

/// The models of a list of blocks, in order.
pub open spec fn blocks_view(blocks: Vec<Block>) -> Seq<BlockView> {
    Seq::new(blocks.len() as nat, |i: int| block_view(blocks[i]))
}

impl View for Pat {
    type V = PatView;

    open spec fn view(&self) -> PatView {
        pat_view(*self)
    }
}

impl View for Expr {
    type V = ExprView;

    open spec fn view(&self) -> ExprView {
        expr_view(*self)
    }
}

impl View for Block {
    type V = BlockView;

    open spec fn view(&self) -> BlockView {
        block_view(*self)
    }
}

impl View for Stmt {
    type V = StmtView;

    open spec fn view(&self) -> StmtView {
        stmt_view(*self)
    }
}

impl View for Arm {
    type V = ArmView;

    open spec fn view(&self) -> ArmView {
        arm_view(*self)
    }
}

} // verus!
