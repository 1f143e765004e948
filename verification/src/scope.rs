//! Tracking of the names that are local at a point of a tree walk.
//!
//! A walk enters a region where the syntax opens a scope, binds the names that
//! patterns introduce, and leaves the region again. A name is local from the
//! point where it is bound to the end of the region that was innermost at that
//! point. Names bound while no region is open stay local for good.

use crate::syntax::{pats_view, Name, Pat, PatView};
use vstd::prelude::*;

verus! {

/// The names bound at a point of a walk, region by region.
pub struct Locals {
    outer: Vec<String>,
    frames: Vec<Vec<String>>,
}

/// Model of [`Locals`]: the names bound outside every region, and those of
/// each open region, outermost first, each in the order of binding.
pub struct LocalsView {
    pub outer: Seq<Name>,
    pub frames: Seq<Seq<Name>>,
}

/// The names that a pattern binds, in source order.
pub open spec fn pat_names(pat: PatView) -> Seq<Name>
    decreases pat, 0nat,
{
    match pat {
        PatView::Ident { name, by_ref, mutable, subpat } => match subpat {
            Some(sub) => seq![name] + pat_names(*sub),
            None => seq![name],
        },
        PatView::TupleStruct { path, elems } => pats_names(elems, elems.len()),
        PatView::Other { syntax, parts } => pats_names(parts, parts.len()),
        PatView::Verbatim(text) => Seq::empty(),
    }
}

/// The names that the first `count` of the patterns bind, in source order.
pub open spec fn pats_names(pats: Seq<PatView>, count: nat) -> Seq<Name>
    decreases pats, count,
{
    if count == 0 || count > pats.len() {
        Seq::empty()
    } else {
        pats_names(pats, (count - 1) as nat) + pat_names(pats[count - 1])
    }
}

impl LocalsView {
    /// Whether `name` is bound in the region with index `frame`.
    pub open spec fn frame_binds(self, frame: int, name: Name) -> bool {
        0 <= frame < self.frames.len() && self.frames[frame].contains(name)
    }

    /// Whether `name` is local.
    pub open spec fn binds(self, name: Name) -> bool {
        self.outer.contains(name) || exists|frame: int| self.frame_binds(frame, name)
    }

    /// The set of the local names.
    pub open spec fn names(self) -> Set<Name> {
        Set::new(|name: Name| self.binds(name))
    }

    /// The state after `names` were bound, one after the other.
    pub open spec fn bind_all(self, names: Seq<Name>) -> LocalsView {
        if self.frames.len() == 0 {
            LocalsView { outer: self.outer + names, frames: self.frames }
        } else {
            LocalsView {
                outer: self.outer,
                frames: self.frames.update(
                    self.frames.len() - 1,
                    self.frames.last() + names,
                ),
            }
        }
    }

    /// The state after a region was entered.
    pub open spec fn enter(self) -> LocalsView {
        LocalsView { outer: self.outer, frames: self.frames.push(Seq::empty()) }
    }

    /// The state after the innermost region was left; unchanged where none is
    /// open.
    pub open spec fn leave(self) -> LocalsView {
        if self.frames.len() == 0 {
            self
        } else {
            LocalsView { outer: self.outer, frames: self.frames.drop_last() }
        }
    }
}

/// The models of a list of names.
pub open spec fn names_view(names: Vec<String>) -> Seq<Name> {
    Seq::new(names.len() as nat, |i: int| names[i]@)
}

/// Whether `name` is among `names`.
fn contains_name(names: &Vec<String>, name: &String) -> (found: bool)
    ensures
        found == names_view(*names).contains(name@),
{
    let mut i: usize = 0;
    while i < names.len()
        invariant
            i <= names.len(),
            forall|j: int| 0 <= j < i ==> names_view(*names)[j] != name@,
        decreases names.len() - i,
    {
        if names[i] == *name {
            assert(names_view(*names)[i as int] == name@);
            return true;
        }
        i += 1;
    }
    false
}

impl View for Locals {
    type V = LocalsView;

    closed spec fn view(&self) -> LocalsView {
        LocalsView {
            outer: names_view(self.outer),
            frames: Seq::new(self.frames.len() as nat, |i: int| names_view(self.frames[i])),
        }
    }
}

impl Locals {
    /// No name is local and no region is open.
    pub fn new() -> (locals: Locals)
        ensures
            locals@ == (LocalsView { outer: Seq::empty(), frames: Seq::empty() }),
    {
        let locals = Locals { outer: Vec::new(), frames: Vec::new() };
        assert(locals@.outer =~= Seq::empty());
        assert(locals@.frames =~= Seq::empty());
        locals
    }

    /// Opens a region inside the current one.
    pub fn enter_scope(&mut self)
        ensures
            final(self)@ == old(self)@.enter(),
    {
        self.frames.push(Vec::new());
        assert(names_view(self.frames[self.frames.len() - 1]) =~= Seq::empty());
        assert(self@.frames =~= old(self)@.enter().frames);
    }

    /// Closes the innermost region: the names bound in it are local no more.
    pub fn leave_scope(&mut self)
        ensures
            final(self)@ == old(self)@.leave(),
    {
        let _ = self.frames.pop();
        assert(self@.frames =~= old(self)@.leave().frames);
    }

    /// Makes `name` local for the rest of the innermost region.
    pub fn bind(&mut self, name: String)
        ensures
            final(self)@ == old(self)@.bind_all(seq![name@]),
    {
        let depth = self.frames.len();
        if depth == 0 {
            self.outer.push(name);
            assert(self@.outer =~= old(self)@.outer + seq![name@]);
            assert(self@.frames =~= old(self)@.frames);
        } else {
            let ghost before = self.frames[depth - 1];
            self.frames[depth - 1].push(name);
            assert(names_view(self.frames[depth - 1]) =~= names_view(before) + seq![name@]);
            assert(self@.frames =~= old(self)@.bind_all(seq![name@]).frames);
        }
    }

    /// Makes local every name that `pat` binds.
    pub fn bind_pattern(&mut self, pat: &Pat)
        ensures
            final(self)@ == old(self)@.bind_all(pat_names(pat@)),
        decreases pat,
    {
        match pat {
            Pat::Ident { name, by_ref, mutable, subpat } => {
                self.bind(name.clone());
                match subpat {
                    Some(sub) => {
                        self.bind_pattern(sub);
                    },
                    None => {},
                }
            },
            Pat::TupleStruct { path, elems } => {
                self.bind_patterns(elems);
            },
            Pat::Other { syntax, parts } => {
                self.bind_patterns(parts);
            },
            Pat::Verbatim(text) => {},
        }
        proof {
            lemma_bind_all_append(old(self)@, seq![], pat_names(pat@));
            match pat {
                Pat::Ident { name, by_ref, mutable, subpat } => {
                    match subpat {
                        Some(sub) => {
                            lemma_bind_all_append(old(self)@, seq![name@], pat_names(sub@));
                        },
                        None => {},
                    }
                },
                _ => {},
            }
        }
    }

    /// Makes local every name that one of `pats` binds.
    pub fn bind_patterns(&mut self, pats: &Vec<Pat>)
        ensures
            final(self)@ == old(self)@.bind_all(pats_names(pats_view(*pats), pats.len() as nat)),
        decreases pats,
    {
        let mut i: usize = 0;
        proof {
            lemma_bind_all_append(self@, seq![], seq![]);
        }
        while i < pats.len()
            invariant
                i <= pats.len(),
                self@ == old(self)@.bind_all(pats_names(pats_view(*pats), i as nat)),
            decreases pats.len() - i,
        {
            self.bind_pattern(&pats[i]);
            proof {
                lemma_bind_all_append(
                    old(self)@,
                    pats_names(pats_view(*pats), i as nat),
                    pat_names(pats[i as int]@),
                );
            }
            i += 1;
        }
    }

    /// Whether `name` is local.
    pub fn is_local(&self, name: &String) -> (local: bool)
        ensures
            local == self@.binds(name@),
    {
        if contains_name(&self.outer, name) {
            return true;
        }
        let mut i: usize = 0;
        while i < self.frames.len()
            invariant
                i <= self.frames.len(),
                !self@.outer.contains(name@),
                forall|frame: int| 0 <= frame < i ==> !self@.frame_binds(frame, name@),
            decreases self.frames.len() - i,
        {
            if contains_name(&self.frames[i], name) {
                assert(self@.frame_binds(i as int, name@));
                return true;
            }
            i += 1;
        }
        false
    }
}

/// Binding two lists of names in turn is binding their concatenation.
pub proof fn lemma_bind_all_append(locals: LocalsView, first: Seq<Name>, second: Seq<Name>)
    ensures
        locals.bind_all(first).bind_all(second) == locals.bind_all(first + second),
        locals.bind_all(Seq::empty()) == locals,
{
    if locals.frames.len() == 0 {
        assert((locals.outer + first) + second =~= locals.outer + (first + second));
        assert(locals.outer + Seq::<Name>::empty() =~= locals.outer);
    } else {
        let last = locals.frames.len() - 1;
        assert(locals.bind_all(first).bind_all(second).frames =~= locals.bind_all(
            first + second,
        ).frames) by {
            assert((locals.frames[last] + first) + second =~= locals.frames[last] + (first
                + second));
        }
        assert(locals.bind_all(Seq::empty()).frames =~= locals.frames) by {
            assert(locals.frames[last] + Seq::<Name>::empty() =~= locals.frames[last]);
        }
    }
}

/// A name is local after a binding exactly if it was local before or is one
/// of the names bound.
pub proof fn lemma_bind_all_names(locals: LocalsView, names: Seq<Name>)
    ensures
        locals.bind_all(names).names() == locals.names().union(names.to_set()),
{
    let after = locals.bind_all(names);
    assert forall|name: Name| after.binds(name) <==> (locals.binds(name) || names.contains(
        name,
    )) by {
        if locals.frames.len() == 0 {
            if after.binds(name) {
                assert(!exists|frame: int| after.frame_binds(frame, name));
                let i = choose|i: int| 0 <= i < after.outer.len() && after.outer[i] == name;
                if i < locals.outer.len() {
                    assert(locals.outer[i] == name);
                } else {
                    assert(names[i - locals.outer.len()] == name);
                }
            }
            if locals.outer.contains(name) {
                let i = choose|i: int| 0 <= i < locals.outer.len() && locals.outer[i] == name;
                assert(after.outer[i] == name);
            }
            if names.contains(name) {
                let i = choose|i: int| 0 <= i < names.len() && names[i] == name;
                assert(after.outer[locals.outer.len() + i] == name);
            }
            if exists|frame: int| locals.frame_binds(frame, name) {
                assert(false);
            }
        } else {
            let last = locals.frames.len() - 1;
            if after.binds(name) && !after.outer.contains(name) {
                let frame = choose|frame: int| after.frame_binds(frame, name);
                if frame == last {
                    let row = after.frames[frame];
                    let i = choose|i: int| 0 <= i < row.len() && row[i] == name;
                    if i < locals.frames[last].len() {
                        assert(locals.frames[last][i] == name);
                        assert(locals.frame_binds(last, name));
                    } else {
                        assert(names[i - locals.frames[last].len()] == name);
                    }
                } else {
                    assert(locals.frame_binds(frame, name));
                }
            }
            if locals.binds(name) && !locals.outer.contains(name) {
                let frame = choose|frame: int| locals.frame_binds(frame, name);
                if frame == last {
                    let row = locals.frames[frame];
                    let i = choose|i: int| 0 <= i < row.len() && row[i] == name;
                    assert(after.frames[last][i] == name);
                    assert(after.frame_binds(last, name));
                } else {
                    assert(after.frame_binds(frame, name));
                }
            }
            if names.contains(name) {
                let i = choose|i: int| 0 <= i < names.len() && names[i] == name;
                assert(after.frames[last][locals.frames[last].len() + i] == name);
                assert(after.frame_binds(last, name));
            }
        }
    }
    assert(after.names() =~= locals.names().union(names.to_set()));
}

/// Entering a region leaves the local names as they are, and leaving it
/// afterwards restores the state in which it was entered, whatever was bound
/// in between.
pub proof fn lemma_enter_leave(locals: LocalsView, names: Seq<Name>)
    ensures
        locals.enter().names() == locals.names(),
        locals.enter().bind_all(names).leave() == locals,
{
    let entered = locals.enter();
    assert forall|name: Name| entered.binds(name) <==> locals.binds(name) by {
        if entered.binds(name) && !entered.outer.contains(name) {
            let frame = choose|frame: int| entered.frame_binds(frame, name);
            assert(frame < locals.frames.len());
            assert(locals.frame_binds(frame, name));
        }
        if locals.binds(name) && !locals.outer.contains(name) {
            let frame = choose|frame: int| locals.frame_binds(frame, name);
            assert(entered.frame_binds(frame, name));
        }
    }
    assert(entered.names() =~= locals.names());
    assert(entered.bind_all(names).leave().frames =~= locals.frames);
}

} // verus!
