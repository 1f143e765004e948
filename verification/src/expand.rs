//! The expansion of a join: the passes in their order, and what the call
//! site needs to run the rewritten blocks as strands of one computation.
//!
//! The blocks first have their shared captures put under arbitration, where
//! that is asked for; then their fallible steps are made explicit; then the
//! exits that leave a block are turned into tagged results; and last, where a
//! cell was made, the suspension points are wrapped. The expansion lists the
//! variants of the tagged result and, for each, the arm by which the call
//! site turns the variant back into the exit that it stands for.

use crate::arbitrate::{all_apart, captures_view, is_arbitrated, strictly_sorted};
use crate::awaits::{blocks_holding, replace_awaits};
use crate::breaks::{
    blocks_escaped, blocks_events, noted, replace_breaks, variants_view, Escape, EscapeView,
    Variant, VariantView,
};
use crate::captures::{
    blocks_redirected, cell_stmt, occurrences, replace_captures_and_generate_borrows, Borrows,
};
use crate::path::CaptureView;
use crate::syntax::{
    arms_view, blocks_view, label_view, opt_box_view, Arm, ArmView, Block, BlockView, Expr,
    ExprView, Name, Pat, PatView,
};
use crate::strands::{lemma_expanded_runs_alone, runs_alone};
use crate::trys::{blocks_desugared, replace_trys};
use vstd::prelude::*;

verus! {

/// The blocks of one join, in the order in which they were written.
#[derive(Debug, PartialEq, Eq)]
pub struct MacroInput(pub Vec<Block>);

/// What a join expands to.
#[derive(Debug, PartialEq, Eq)]
pub struct Expansion {
    /// The cell of the arbitrated captures, where there are any.
    pub borrows: Option<Borrows>,
    /// The name of the tagged result type.
    pub output_type: String,
    /// The name of the variant that holds the value of a block that ran to
    /// its end.
    pub keep: String,
    /// The variants that stand for exits, in the order in which the type
    /// lists them: returns, breaks with a value, breaks without, continues.
    pub variants: Vec<Variant>,
    /// The arms by which the call site dispatches on the joint result: the
    /// arm of the kept values, then one arm for each of `variants`.
    pub arms: Vec<Arm>,
    /// The rewritten blocks, in the order of the input.
    pub blocks: Vec<Block>,
}

/// The prefix of every name that an expansion introduces.
pub open spec fn private_name() -> Name {
    "__enjoin"@
}

/// The name under which a block holds the cell.
pub open spec fn hold_name() -> Name {
    private_name() + "_borrows"@
}

/// The name of the cell.
pub open spec fn cell_name() -> Name {
    private_name() + "_borrows_cell"@
}

/// The name of the tagged result type.
pub open spec fn output_name() -> Name {
    private_name() + "_OutputEnum"@
}

/// The name of the variant of the kept values.
pub open spec fn keep_name() -> Name {
    private_name() + "_Keep"@
}

/// The place of a variant in the listing of the type: returns first, then
/// breaks with a value, breaks without, continues.
pub open spec fn class_of(variant: VariantView) -> nat {
    match variant.escape {
        EscapeView::Return => 0,
        EscapeView::Break(label) => if variant.has_value {
            1
        } else {
            2
        },
        EscapeView::Continue(label) => 3,
    }
}

/// Those of the first `count` variants of the table that are of class
/// `class`, in the order of the table.
pub open spec fn picked(table: Seq<VariantView>, class: nat, count: nat) -> Seq<VariantView>
    decreases count,
{
    if count == 0 || count > table.len() {
        Seq::empty()
    } else if class_of(table[count - 1]) == class {
        picked(table, class, (count - 1) as nat).push(table[count - 1])
    } else {
        picked(table, class, (count - 1) as nat)
    }
}

/// The variants of the table in the order in which the type lists them.
pub open spec fn listed(table: Seq<VariantView>) -> Seq<VariantView> {
    picked(table, 0, table.len()) + picked(table, 1, table.len()) + picked(
        table,
        2,
        table.len(),
    ) + picked(table, 3, table.len())
}

/// The pattern `output::name(e)`, or `output::name(_)` for a variant whose
/// payload is not used.
pub open spec fn variant_pat(output: Name, name: Name, used: bool) -> PatView {
    PatView::TupleStruct {
        path: output + "::"@ + name,
        elems: seq![
            if used {
                PatView::Ident { name: "e"@, by_ref: false, mutable: false, subpat: None }
            } else {
                PatView::Verbatim("_"@)
            },
        ],
    }
}

/// The exit that a variant stands for, with the payload `e` where the exit
/// carries a value.
pub open spec fn exit_of(variant: VariantView) -> ExprView {
    match variant.escape {
        EscapeView::Return => ExprView::Return {
            value: Some(Box::new(ExprView::Name("e"@))),
        },
        EscapeView::Break(label) => ExprView::Break {
            label,
            value: if variant.has_value {
                Some(Box::new(ExprView::Name("e"@)))
            } else {
                None
            },
        },
        EscapeView::Continue(label) => ExprView::Continue { label },
    }
}

/// Whether the exit that a variant stands for uses the payload.
pub open spec fn uses_payload(variant: VariantView) -> bool {
    class_of(variant) <= 1
}

/// The arm that turns a variant back into its exit.
pub open spec fn dispatch_arm(output: Name, variant: VariantView) -> ArmView {
    ArmView {
        attrs: Seq::empty(),
        pat: variant_pat(output, variant.name, uses_payload(variant)),
        guard: None,
        body: exit_of(variant),
    }
}

/// The arm of the kept values: `output::keep(e) => e`.
pub open spec fn keep_arm(output: Name, keep: Name) -> ArmView {
    ArmView {
        attrs: Seq::empty(),
        pat: variant_pat(output, keep, true),
        guard: None,
        body: ExprView::Name("e"@),
    }
}

/// The arms of the dispatch: that of the kept values, then one for each
/// variant.
pub open spec fn dispatch_arms(output: Name, keep: Name, variants: Seq<VariantView>) -> Seq<
    ArmView,
> {
    seq![keep_arm(output, keep)] + Seq::new(
        variants.len(),
        |i: int| dispatch_arm(output, variants[i]),
    )
}

/// The blocks after captures were arbitrated, where `set` holds any.
pub open spec fn shared(blocks: Seq<BlockView>, set: Option<Seq<CaptureView>>) -> Seq<BlockView> {
    match set {
        Some(paths) => blocks_redirected(blocks, paths, hold_name()),
        None => blocks,
    }
}

/// The blocks after the fallible steps were made explicit.
pub open spec fn stepped(blocks: Seq<BlockView>, set: Option<Seq<CaptureView>>) -> Seq<BlockView> {
    blocks_desugared(shared(blocks, set))
}

/// The blocks of the expansion.
pub open spec fn expanded(blocks: Seq<BlockView>, set: Option<Seq<CaptureView>>) -> Seq<
    BlockView,
> {
    let escaped = blocks_escaped(stepped(blocks, set), output_name(), private_name());
    match set {
        Some(paths) => blocks_holding(escaped, hold_name(), cell_name()),
        None => escaped,
    }
}

/// The table of the exits of the expansion, in the order in which the walk
/// meets them.
pub open spec fn exits(blocks: Seq<BlockView>, set: Option<Seq<CaptureView>>) -> Seq<VariantView> {
    noted(Seq::empty(), blocks_events(stepped(blocks, set), 0), private_name())
}

/// The arbitrated captures of an expansion, where it has any.
pub open spec fn set_of(borrows: Option<Borrows>) -> Option<Seq<CaptureView>> {
    match borrows {
        Some(made) => Some(captures_view(made.captures)),
        None => None,
    }
}

/// A copy of a variant.
fn duplicate_variant(variant: &Variant) -> (copy: Variant)
    ensures
        copy@ == variant@,
{
    Variant {
        escape: variant.escape.duplicate(),
        name: variant.name.clone(),
        has_value: variant.has_value,
    }
}

/// The place of a variant in the listing of the type.
fn class(variant: &Variant) -> (class: u8)
    ensures
        class as nat == class_of(variant@),
{
    match &variant.escape {
        Escape::Return => 0,
        Escape::Break(label) => if variant.has_value {
            1
        } else {
            2
        },
        Escape::Continue(label) => 3,
    }
}

/// Appends the variants of the table that are of class `wanted`.
fn pick(table: &Vec<Variant>, wanted: u8, out: &mut Vec<Variant>)
    ensures
        variants_view(*final(out)) == variants_view(*old(out)) + picked(
            variants_view(*table),
            wanted as nat,
            table.len() as nat,
        ),
{
    let ghost start = variants_view(*out);
    let ghost views = variants_view(*table);
    let mut i: usize = 0;
    assert(variants_view(*out) =~= start + picked(views, wanted as nat, 0));
    while i < table.len()
        invariant
            i <= table.len(),
            views == variants_view(*table),
            variants_view(*out) == start + picked(views, wanted as nat, i as nat),
        decreases table.len() - i,
    {
        let ghost before = variants_view(*out);
        if class(&table[i]) == wanted {
            out.push(duplicate_variant(&table[i]));
            assert(variants_view(*out) =~= before.push(views[i as int]));
            assert(before.push(views[i as int]) =~= start + picked(
                views,
                wanted as nat,
                (i + 1) as nat,
            ));
        }
        i += 1;
    }
}

/// The variants of the table in the order in which the type lists them.
pub fn list_variants(table: &Vec<Variant>) -> (out: Vec<Variant>)
    ensures
        variants_view(out) == listed(variants_view(*table)),
{
    let mut out: Vec<Variant> = Vec::new();
    assert(variants_view(out) =~= Seq::empty());
    pick(table, 0, &mut out);
    pick(table, 1, &mut out);
    pick(table, 2, &mut out);
    pick(table, 3, &mut out);
    assert(variants_view(out) =~= listed(variants_view(*table)));
    out
}

/// Joins a prefix and the rest of a name.
fn name_of(prefix: &str, rest: &str) -> (name: String)
    ensures
        name@ == prefix@ + rest@,
{
    let mut name = String::from_str(prefix);
    name.append(rest);
    name
}

/// Builds the pattern `output::name(e)` or `output::name(_)`.
fn make_variant_pat(output: &String, name: &String, used: bool) -> (pat: Pat)
    ensures
        pat@ == variant_pat(output@, name@, used),
{
    let mut path = output.clone();
    path.append("::");
    path.append(name.as_str());
    let elem = if used {
        Pat::Ident { name: String::from_str("e"), by_ref: false, mutable: false, subpat: None }
    } else {
        Pat::Verbatim(String::from_str("_"))
    };
    let ghost elem_view = elem@;
    assert(elem_view == if used {
        PatView::Ident { name: "e"@, by_ref: false, mutable: false, subpat: None }
    } else {
        PatView::Verbatim("_"@)
    });
    let mut elems: Vec<Pat> = Vec::new();
    elems.push(elem);
    assert(crate::syntax::pats_view(elems) =~= seq![elem_view]);
    Pat::TupleStruct { path, elems }
}

/// Builds the payload `e`.
fn make_payload() -> (payload: Option<Box<Expr>>)
    ensures
        opt_box_view(payload) == Some(Box::new(ExprView::Name("e"@))),
{
    let name = Expr::Name(String::from_str("e"));
    assert(name@ == ExprView::Name("e"@));
    Some(Box::new(name))
}

/// A copy of an optional label.
fn copy_label(label: &Option<String>) -> (copy: Option<String>)
    ensures
        label_view(copy) == label_view(*label),
{
    match label {
        Some(name) => Some(name.clone()),
        None => None,
    }
}

/// Builds the exit that a variant stands for.
fn make_exit(variant: &Variant) -> (body: Expr)
    ensures
        body@ == exit_of(variant@),
{
    match &variant.escape {
        Escape::Return => {
            let body = Expr::Return { value: make_payload() };
            assert(body@ == exit_of(variant@));
            body
        },
        Escape::Break(label) => {
            let value = if variant.has_value {
                make_payload()
            } else {
                None
            };
            assert(opt_box_view(value) == if variant.has_value {
                Some(Box::new(ExprView::Name("e"@)))
            } else {
                None
            });
            let label = copy_label(label);
            let body = Expr::Break { label, value };
            assert(body@ == ExprView::Break {
                label: label_view(label),
                value: opt_box_view(value),
            });
            assert(body@ == exit_of(variant@));
            body
        },
        Escape::Continue(label) => {
            let body = Expr::Continue { label: copy_label(label) };
            assert(body@ == exit_of(variant@));
            body
        },
    }
}

/// Builds the arm that turns a variant back into its exit.
fn make_dispatch_arm(output: &String, variant: &Variant) -> (arm: Arm)
    ensures
        arm@ == dispatch_arm(output@, variant@),
{
    let used = class(variant) <= 1;
    Arm {
        attrs: String::new(),
        pat: make_variant_pat(output, &variant.name, used),
        guard: None,
        body: make_exit(variant),
    }
}

/// Builds the arm of the kept values.
fn make_keep_arm(output: &String, keep: &String) -> (arm: Arm)
    ensures
        arm@ == keep_arm(output@, keep@),
{
    let value = Expr::Name(String::from_str("e"));
    assert(value@ == ExprView::Name("e"@));
    Arm {
        attrs: String::new(),
        pat: make_variant_pat(output, keep, true),
        guard: None,
        body: value,
    }
}

/// Builds the arms of the dispatch.
pub fn make_dispatch(output: &String, keep: &String, variants: &Vec<Variant>) -> (arms: Vec<Arm>)
    ensures
        arms_view(arms) == dispatch_arms(output@, keep@, variants_view(*variants)),
{
    let ghost views = variants_view(*variants);
    let mut arms: Vec<Arm> = Vec::new();
    let mut i: usize = 0;
    while i < variants.len()
        invariant
            i <= variants.len(),
            views == variants_view(*variants),
            arms.len() == i,
            forall|j: int| 0 <= j < i ==> (#[trigger] arms[j])@ == dispatch_arm(output@, views[j]),
        decreases variants.len() - i,
    {
        arms.push(make_dispatch_arm(output, &variants[i]));
        i += 1;
    }
    let ghost rest = arms_view(arms);
    assert(rest =~= Seq::new(views.len(), |i: int| dispatch_arm(output@, views[i])));
    let first = make_keep_arm(output, keep);
    let ghost first_view = first@;
    arms.insert(0, first);
    assert(arms_view(arms) =~= seq![first_view] + rest);
    arms
}

/// Every block of an expansion can run as a strand.
proof fn lemma_all_run_alone(
    input: Seq<BlockView>,
    set: Option<Seq<CaptureView>>,
    blocks: Seq<BlockView>,
)
    requires
        blocks == expanded(input, set),
    ensures
        forall|i: int| 0 <= i < blocks.len() ==> runs_alone(#[trigger] blocks[i], set is Some),
{
    assert forall|i: int| 0 <= i < blocks.len() implies runs_alone(
        #[trigger] blocks[i],
        set is Some,
    ) by {
        lemma_expanded_len(input, set);
        lemma_expanded_runs_alone(input, set, i);
    }
}

/// An expansion has as many blocks as the join.
proof fn lemma_expanded_len(input: Seq<BlockView>, set: Option<Seq<CaptureView>>)
    ensures
        expanded(input, set).len() == input.len(),
{
}

impl MacroInput {
    /// Expands the join of the blocks. With `make_borrows`, the captures
    /// that the blocks share are put under arbitration first.
    pub fn generate(self, make_borrows: bool) -> (expansion: Expansion)
        ensures
            expansion.output_type@ == output_name(),
            expansion.keep@ == keep_name(),
            match expansion.borrows {
                Some(made) => {
                    let set = captures_view(made.captures);
                    &&& make_borrows
                    &&& set.len() > 0
                    &&& strictly_sorted(set)
                    &&& all_apart(set)
                    &&& forall|path: CaptureView|
                        set.contains(path) <==> is_arbitrated(
                            occurrences(blocks_view(self.0), self.0.len() as nat),
                            path,
                        )
                    &&& made.cell@ == cell_stmt(cell_name(), set)
                },
                None => make_borrows ==> forall|path: CaptureView|
                    !is_arbitrated(occurrences(blocks_view(self.0), self.0.len() as nat), path),
            },
            blocks_view(expansion.blocks) == expanded(
                blocks_view(self.0),
                set_of(expansion.borrows),
            ),
            variants_view(expansion.variants) == listed(
                exits(blocks_view(self.0), set_of(expansion.borrows)),
            ),
            arms_view(expansion.arms) == dispatch_arms(
                output_name(),
                keep_name(),
                variants_view(expansion.variants),
            ),
            forall|i: int|
                0 <= i < expansion.blocks.len() ==> runs_alone(
                    #[trigger] blocks_view(expansion.blocks)[i],
                    expansion.borrows is Some,
                ),
    {
        let ghost input = blocks_view(self.0);
        let mut blocks = self.0;
        let private = String::from_str("__enjoin");
        let hold = name_of("__enjoin", "_borrows");
        let cell = name_of("__enjoin", "_borrows_cell");
        let output_type = name_of("__enjoin", "_OutputEnum");
        let keep = name_of("__enjoin", "_Keep");
        let borrows = if make_borrows {
            replace_captures_and_generate_borrows(&mut blocks, &hold, &cell)
        } else {
            None
        };
        let ghost set = set_of(borrows);
        assert(blocks_view(blocks) == shared(input, set));
        replace_trys(&mut blocks);
        let found = replace_breaks(&mut blocks, &output_type, &private);
        if borrows.is_some() {
            replace_awaits(&mut blocks, &hold, &cell);
        }
        let variants = list_variants(&found);
        let arms = make_dispatch(&output_type, &keep, &variants);
        proof {
            lemma_all_run_alone(input, set, blocks_view(blocks));
        }
        Expansion { borrows, output_type, keep, variants, arms, blocks }
    }
}

/// Expands a join of the blocks in which shared captures are the caller's
/// affair.
pub fn join(input: MacroInput) -> (expansion: Expansion)
    ensures
        expansion.borrows is None,
        expansion.output_type@ == output_name(),
        expansion.keep@ == keep_name(),
        blocks_view(expansion.blocks) == expanded(blocks_view(input.0), None),
        variants_view(expansion.variants) == listed(exits(blocks_view(input.0), None)),
        arms_view(expansion.arms) == dispatch_arms(
            output_name(),
            keep_name(),
            variants_view(expansion.variants),
        ),
        forall|i: int|
            0 <= i < expansion.blocks.len() ==> runs_alone(
                #[trigger] blocks_view(expansion.blocks)[i],
                expansion.borrows is Some,
            ),
{
    input.generate(false)
}

/// Expands a join of the blocks in which the captures that the blocks share
/// are put under arbitration.
pub fn join_auto_borrow(input: MacroInput) -> (expansion: Expansion)
    ensures
        expansion.output_type@ == output_name(),
        expansion.keep@ == keep_name(),
        match expansion.borrows {
            Some(made) => {
                let set = captures_view(made.captures);
                &&& set.len() > 0
                &&& strictly_sorted(set)
                &&& all_apart(set)
                &&& forall|path: CaptureView|
                    set.contains(path) <==> is_arbitrated(
                        occurrences(blocks_view(input.0), input.0.len() as nat),
                        path,
                    )
                &&& made.cell@ == cell_stmt(cell_name(), set)
            },
            None => forall|path: CaptureView|
                !is_arbitrated(occurrences(blocks_view(input.0), input.0.len() as nat), path),
        },
        blocks_view(expansion.blocks) == expanded(
            blocks_view(input.0),
            set_of(expansion.borrows),
        ),
        variants_view(expansion.variants) == listed(
            exits(blocks_view(input.0), set_of(expansion.borrows)),
        ),
        arms_view(expansion.arms) == dispatch_arms(
            output_name(),
            keep_name(),
            variants_view(expansion.variants),
        ),
        forall|i: int|
            0 <= i < expansion.blocks.len() ==> runs_alone(
                #[trigger] blocks_view(expansion.blocks)[i],
                expansion.borrows is Some,
            ),
{
    input.generate(true)
}

} // verus!
