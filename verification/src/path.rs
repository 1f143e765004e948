//! Capture paths: a root variable and the field steps taken from it, the
//! ancestor relation between two paths, and the total order by which the
//! analysis sorts them.
//!
//! Paths are ordered by root name first and then step by step. Names are
//! ordered as strings are, character by character; a positional step comes
//! before every named step, and positional steps are ordered by their index.

use crate::syntax::{Member, MemberView, Name};
use vstd::prelude::*;
use vstd::std_specs::iter::IteratorSpec;

verus! {

/// A reference to a variable, or to a field reached from it.
#[derive(Debug, PartialEq, Eq)]
pub struct Capture {
    pub root: String,
    pub members: Vec<Member>,
}

/// Model of [`Capture`].
pub struct CaptureView {
    pub root: Name,
    pub members: Seq<MemberView>,
}

/// The result of comparing two values of a totally ordered type.
#[derive(Debug, Clone, Copy, PartialEq, Eq)]
pub enum Order {
    Less,
    Equal,
    Greater,
}

/// The models of a list of field steps, in order.
pub open spec fn members_view(members: Vec<Member>) -> Seq<MemberView> {
    Seq::new(members.len() as nat, |i: int| members[i]@)
}

impl View for Capture {
    type V = CaptureView;

    open spec fn view(&self) -> CaptureView {
        CaptureView { root: self.root@, members: members_view(self.members) }
    }
}

/// `a` and `b` agree on their first `k` items, and there `a` ends while `b`
/// goes on, or `a` holds the lesser item.
pub open spec fn lex_lt_at<T>(a: Seq<T>, b: Seq<T>, lt: spec_fn(T, T) -> bool, k: int) -> bool {
    &&& 0 <= k <= a.len()
    &&& k <= b.len()
    &&& forall|i: int| 0 <= i < k ==> a[i] == b[i]
    &&& (k == a.len() && k < b.len()) || (k < a.len() && k < b.len() && lt(a[k], b[k]))
}

/// The lexicographic order that `lt` induces on sequences.
pub open spec fn lex_lt<T>(a: Seq<T>, b: Seq<T>, lt: spec_fn(T, T) -> bool) -> bool {
    exists|k: int| lex_lt_at(a, b, lt, k)
}

/// Whether `lt` is a strict total order.
pub open spec fn strict_total<T>(lt: spec_fn(T, T) -> bool) -> bool {
    &&& forall|x: T| !#[trigger] lt(x, x)
    &&& forall|x: T, y: T, z: T| #[trigger] lt(x, y) && #[trigger] lt(y, z) ==> lt(x, z)
    &&& forall|x: T, y: T| #[trigger] lt(x, y) || x == y || lt(y, x)
}

/// Whether `a` is an initial piece of `b`.
pub open spec fn seq_prefix<T>(a: Seq<T>, b: Seq<T>) -> bool {
    a.len() <= b.len() && forall|i: int| 0 <= i < a.len() ==> a[i] == b[i]
}

/// The order of characters: that of their code points.
pub open spec fn char_order() -> spec_fn(char, char) -> bool {
    |x: char, y: char| x < y
}

/// The order of names: that of strings.
pub open spec fn name_lt(a: Name, b: Name) -> bool {
    lex_lt(a, b, char_order())
}

/// The order of field steps.
pub open spec fn member_lt(a: MemberView, b: MemberView) -> bool {
    match (a, b) {
        (MemberView::Named(x), MemberView::Named(y)) => name_lt(x, y),
        (MemberView::Named(x), MemberView::Unnamed(j)) => false,
        (MemberView::Unnamed(i), MemberView::Named(y)) => true,
        (MemberView::Unnamed(i), MemberView::Unnamed(j)) => i < j,
    }
}

/// [`member_lt`] as a value.
pub open spec fn member_order() -> spec_fn(MemberView, MemberView) -> bool {
    |x: MemberView, y: MemberView| member_lt(x, y)
}

impl CaptureView {
    /// Whether `self` comes before `other` in the order of paths.
    pub open spec fn lt(self, other: CaptureView) -> bool {
        name_lt(self.root, other.root) || (self.root == other.root && lex_lt(
            self.members,
            other.members,
            member_order(),
        ))
    }

    /// Whether `self` is `other` or comes before it.
    pub open spec fn le(self, other: CaptureView) -> bool {
        self == other || self.lt(other)
    }

    /// Whether `self` is `other` or an ancestor of it: the same root, and the
    /// steps of `self` are the first steps of `other`.
    pub open spec fn covers(self, other: CaptureView) -> bool {
        self.root == other.root && seq_prefix(self.members, other.members)
    }
}

/// What a comparison returns for `a` and `b` under the strict order `lt`.
pub open spec fn order_of<T>(a: T, b: T, lt: spec_fn(T, T) -> bool) -> Order {
    if lt(a, b) {
        Order::Less
    } else if a == b {
        Order::Equal
    } else {
        Order::Greater
    }
}

/// The lexicographic order of a strict total order is irreflexive.
pub proof fn lemma_lex_irreflexive<T>(a: Seq<T>, lt: spec_fn(T, T) -> bool)
    requires
        strict_total(lt),
    ensures
        !lex_lt(a, a, lt),
{
    assert forall|k: int| !lex_lt_at(a, a, lt, k) by {
        if lex_lt_at(a, a, lt, k) {
            assert(lt(a[k], a[k]));
        }
    }
}

/// The lexicographic order of a strict total order is transitive.
pub proof fn lemma_lex_transitive<T>(a: Seq<T>, b: Seq<T>, c: Seq<T>, lt: spec_fn(T, T) -> bool)
    requires
        strict_total(lt),
        lex_lt(a, b, lt),
        lex_lt(b, c, lt),
    ensures
        lex_lt(a, c, lt),
{
    let k1 = choose|k: int| lex_lt_at(a, b, lt, k);
    let k2 = choose|k: int| lex_lt_at(b, c, lt, k);
    if k1 < k2 {
        assert(lex_lt_at(a, c, lt, k1));
    } else if k1 == k2 {
        if k1 < a.len() {
            assert(lt(a[k1], b[k1]) && lt(b[k1], c[k1]));
        }
        assert(lex_lt_at(a, c, lt, k1));
    } else {
        assert(lt(b[k2], c[k2]));
        assert(a[k2] == b[k2]);
        assert(lex_lt_at(a, c, lt, k2));
    }
}

/// Two sequences that agree on their first `k` items are equal, or one comes
/// before the other.
proof fn lemma_lex_total_from<T>(a: Seq<T>, b: Seq<T>, lt: spec_fn(T, T) -> bool, k: int)
    requires
        strict_total(lt),
        0 <= k <= a.len(),
        k <= b.len(),
        forall|i: int| 0 <= i < k ==> a[i] == b[i],
    ensures
        lex_lt(a, b, lt) || a == b || lex_lt(b, a, lt),
    decreases a.len() - k,
{
    if k == a.len() {
        if k == b.len() {
            assert(a =~= b);
        } else {
            assert(lex_lt_at(a, b, lt, k));
        }
    } else if k == b.len() {
        assert(lex_lt_at(b, a, lt, k));
    } else if lt(a[k], b[k]) {
        assert(lex_lt_at(a, b, lt, k));
    } else if lt(b[k], a[k]) {
        assert(lex_lt_at(b, a, lt, k));
    } else {
        assert(a[k] == b[k]);
        lemma_lex_total_from(a, b, lt, k + 1);
    }
}

/// The lexicographic order of a strict total order is total.
pub proof fn lemma_lex_total<T>(a: Seq<T>, b: Seq<T>, lt: spec_fn(T, T) -> bool)
    requires
        strict_total(lt),
    ensures
        lex_lt(a, b, lt) || a == b || lex_lt(b, a, lt),
{
    lemma_lex_total_from(a, b, lt, 0);
}

/// The lexicographic order of a strict total order is a strict total order.
pub proof fn lemma_lex_strict_total<T>(lt: spec_fn(T, T) -> bool)
    requires
        strict_total(lt),
    ensures
        strict_total(|a: Seq<T>, b: Seq<T>| lex_lt(a, b, lt)),
{
    let lifted = |a: Seq<T>, b: Seq<T>| lex_lt(a, b, lt);
    assert forall|a: Seq<T>| !#[trigger] lifted(a, a) by {
        lemma_lex_irreflexive(a, lt);
    }
    assert forall|a: Seq<T>, b: Seq<T>, c: Seq<T>| #[trigger]
        lifted(a, b) && #[trigger] lifted(b, c) implies lifted(a, c) by {
        lemma_lex_transitive(a, b, c, lt);
    }
    assert forall|a: Seq<T>, b: Seq<T>| #[trigger] lifted(a, b) || a == b || lifted(b, a) by {
        lemma_lex_total(a, b, lt);
    }
}

/// An initial piece of a sequence is that sequence or comes before it.
pub proof fn lemma_prefix_le<T>(a: Seq<T>, b: Seq<T>, lt: spec_fn(T, T) -> bool)
    requires
        seq_prefix(a, b),
    ensures
        a == b || lex_lt(a, b, lt),
{
    if a.len() == b.len() {
        assert(a =~= b);
    } else {
        assert(lex_lt_at(a, b, lt, a.len() as int));
    }
}

/// Between an initial piece of a sequence and that sequence, the order holds
/// only sequences that begin with the same piece.
pub proof fn lemma_prefix_between<T>(a: Seq<T>, b: Seq<T>, c: Seq<T>, lt: spec_fn(T, T) -> bool)
    requires
        strict_total(lt),
        a == b || lex_lt(a, b, lt),
        b == c || lex_lt(b, c, lt),
        seq_prefix(a, c),
    ensures
        seq_prefix(a, b),
{
    if a != b {
        let k = choose|k: int| lex_lt_at(a, b, lt, k);
        if k < a.len() {
            assert(lt(a[k], b[k]));
            assert(c[k] == a[k]);
            if b == c {
                assert(false);
            } else {
                let k2 = choose|k2: int| lex_lt_at(b, c, lt, k2);
                if k2 < k {
                    assert(b[k2] == a[k2]);
                    assert(lt(b[k2], c[k2]));
                    assert(false);
                } else if k2 == k {
                    assert(lt(b[k], c[k]));
                    assert(lt(a[k], a[k]));
                    assert(false);
                } else {
                    assert(b[k] == c[k]);
                    assert(false);
                }
            }
        }
    }
}

/// Two different characters are ordered one way or the other.
proof fn lemma_char_total(x: char, y: char)
    ensures
        x < y || x == y || y < x,
{
}

/// The order of characters is a strict total order.
pub proof fn lemma_char_order()
    ensures
        strict_total(char_order()),
{
    let lt = char_order();
    assert forall|x: char, y: char| #[trigger] lt(x, y) || x == y || lt(y, x) by {
        lemma_char_total(x, y);
    }
}

/// The order of names is a strict total order.
pub proof fn lemma_name_order()
    ensures
        strict_total(|a: Name, b: Name| name_lt(a, b)),
        forall|a: Name| !name_lt(a, a),
        forall|a: Name, b: Name, c: Name| #[trigger]
            name_lt(a, b) && #[trigger] name_lt(b, c) ==> name_lt(a, c),
        forall|a: Name, b: Name| #[trigger] name_lt(a, b) || a == b || name_lt(b, a),
{
    lemma_char_order();
    lemma_lex_strict_total(char_order());
    let lifted = |a: Name, b: Name| lex_lt(a, b, char_order());
    assert forall|a: Name| !name_lt(a, a) by {
        assert(!lifted(a, a));
    }
    assert forall|a: Name, b: Name, c: Name| #[trigger]
        name_lt(a, b) && #[trigger] name_lt(b, c) implies name_lt(a, c) by {
        assert(lifted(a, b) && lifted(b, c));
        assert(lifted(a, c));
    }
    assert forall|a: Name, b: Name| #[trigger] name_lt(a, b) || a == b || name_lt(b, a) by {
        assert(lifted(a, b) || a == b || lifted(b, a));
    }
    let named = |a: Name, b: Name| name_lt(a, b);
    assert(strict_total(named)) by {
        assert forall|a: Name| !#[trigger] named(a, a) by {}
        assert forall|a: Name, b: Name, c: Name| #[trigger]
            named(a, b) && #[trigger] named(b, c) implies named(a, c) by {
            assert(name_lt(a, b) && name_lt(b, c));
        }
        assert forall|a: Name, b: Name| #[trigger] named(a, b) || a == b || named(b, a) by {
            assert(name_lt(a, b) || a == b || name_lt(b, a));
        }
    }
}

/// The order of field steps is a strict total order.
pub proof fn lemma_member_order()
    ensures
        strict_total(member_order()),
{
    lemma_name_order();
    let lt = member_order();
    assert forall|x: MemberView| !#[trigger] lt(x, x) by {}
    assert forall|x: MemberView, y: MemberView, z: MemberView| #[trigger]
        lt(x, y) && #[trigger] lt(y, z) implies lt(x, z) by {
        match (x, y, z) {
            (MemberView::Named(a), MemberView::Named(b), MemberView::Named(c)) => {
                assert(name_lt(a, b) && name_lt(b, c));
            },
            _ => {},
        }
    }
    assert forall|x: MemberView, y: MemberView| #[trigger] lt(x, y) || x == y || lt(y, x) by {
        match (x, y) {
            (MemberView::Named(a), MemberView::Named(b)) => {
                assert(name_lt(a, b) || a == b || name_lt(b, a));
            },
            _ => {},
        }
    }
}

/// The order of paths is irreflexive.
pub proof fn lemma_capture_irreflexive(a: CaptureView)
    ensures
        !a.lt(a),
{
    lemma_name_order();
    lemma_member_order();
    lemma_lex_irreflexive(a.members, member_order());
}

/// The order of paths is transitive.
pub proof fn lemma_capture_transitive(a: CaptureView, b: CaptureView, c: CaptureView)
    requires
        a.lt(b),
        b.lt(c),
    ensures
        a.lt(c),
{
    lemma_name_order();
    lemma_member_order();
    if a.root == b.root && b.root == c.root {
        lemma_lex_transitive(a.members, b.members, c.members, member_order());
    } else if a.root == b.root {
        assert(name_lt(a.root, c.root));
    } else if b.root == c.root {
        assert(name_lt(a.root, c.root));
    } else {
        assert(name_lt(a.root, b.root) && name_lt(b.root, c.root));
    }
}

/// The order of paths is total: two different paths are ordered one way or
/// the other.
pub proof fn lemma_capture_total(a: CaptureView, b: CaptureView)
    ensures
        a.lt(b) || a == b || b.lt(a),
{
    lemma_name_order();
    lemma_member_order();
    assert(name_lt(a.root, b.root) || a.root == b.root || name_lt(b.root, a.root));
    if a.root == b.root {
        lemma_lex_total(a.members, b.members, member_order());
    }
}

/// No two paths are ordered both ways.
pub proof fn lemma_capture_asymmetric(a: CaptureView, b: CaptureView)
    requires
        a.lt(b),
    ensures
        !b.lt(a),
        a != b,
{
    lemma_capture_irreflexive(a);
    if b.lt(a) {
        lemma_capture_transitive(a, b, a);
    }
}

/// An ancestor comes before its descendants.
pub proof fn lemma_covers_le(a: CaptureView, b: CaptureView)
    requires
        a.covers(b),
    ensures
        a.le(b),
{
    lemma_prefix_le(a.members, b.members, member_order());
}

/// Whatever the order puts between an ancestor and one of its descendants is
/// a descendant of that ancestor too.
pub proof fn lemma_covers_between(a: CaptureView, b: CaptureView, c: CaptureView)
    requires
        a.le(b),
        b.le(c),
        a.covers(c),
    ensures
        a.covers(b),
{
    lemma_name_order();
    lemma_member_order();
    if a.root != b.root {
        assert(name_lt(a.root, b.root));
        if b.root != c.root {
            assert(name_lt(b.root, c.root));
            assert(name_lt(a.root, a.root));
        }
        assert(false);
    }
    if b.root != c.root {
        assert(name_lt(b.root, c.root));
        assert(false);
    }
    lemma_prefix_between(a.members, b.members, c.members, member_order());
}

/// The ancestor relation is transitive.
pub proof fn lemma_covers_transitive(a: CaptureView, b: CaptureView, c: CaptureView)
    requires
        a.covers(b),
        b.covers(c),
    ensures
        a.covers(c),
{
}

/// Two paths of which each is an ancestor of the other are equal.
pub proof fn lemma_covers_antisymmetric(a: CaptureView, b: CaptureView)
    requires
        a.covers(b),
        b.covers(a),
    ensures
        a == b,
{
    assert(a.members =~= b.members);
}

/// Compares two names as strings are compared.
pub fn compare_names(a: &String, b: &String) -> (order: Order)
    ensures
        order == order_of(a@, b@, |x: Name, y: Name| name_lt(x, y)),
{
    let mut left = a.as_str().chars();
    let mut right = b.as_str().chars();
    let ghost mut k: int = 0;
    proof {
        lemma_name_order();
    }
    loop
        invariant
            0 <= k <= a@.len(),
            k <= b@.len(),
            left.remaining() == a@.subrange(k, a@.len() as int),
            right.remaining() == b@.subrange(k, b@.len() as int),
            forall|i: int| 0 <= i < k ==> a@[i] == b@[i],
            forall|x: Name| !name_lt(x, x),
            forall|x: Name, y: Name, z: Name| #[trigger]
                name_lt(x, y) && #[trigger] name_lt(y, z) ==> name_lt(x, z),
        decreases a@.len() - k,
    {
        let x = left.next();
        let y = right.next();
        match (x, y) {
            (Some(c), Some(d)) => {
                assert(c == a@[k]);
                assert(d == b@[k]);
                if c < d {
                    assert(lex_lt_at(a@, b@, char_order(), k));
                    return Order::Less;
                }
                if d < c {
                    assert(lex_lt_at(b@, a@, char_order(), k));
                    assert(name_lt(b@, a@));
                    return Order::Greater;
                }
                proof {
                    lemma_char_total(c, d);
                }
                proof {
                    k = k + 1;
                }
            },
            (None, None) => {
                assert(a@ =~= b@);
                return Order::Equal;
            },
            (None, Some(d)) => {
                assert(lex_lt_at(a@, b@, char_order(), k));
                return Order::Less;
            },
            (Some(c), None) => {
                assert(lex_lt_at(b@, a@, char_order(), k));
                assert(name_lt(b@, a@));
                return Order::Greater;
            },
        }
    }
}

/// Compares two field steps.
pub fn compare_members(a: &Member, b: &Member) -> (order: Order)
    ensures
        order == order_of(a@, b@, member_order()),
{
    proof {
        lemma_member_order();
    }
    match (a, b) {
        (Member::Named(x), Member::Named(y)) => {
            let order = compare_names(x, y);
            order
        },
        (Member::Named(x), Member::Unnamed(j)) => Order::Greater,
        (Member::Unnamed(i), Member::Named(y)) => Order::Less,
        (Member::Unnamed(i), Member::Unnamed(j)) => {
            if *i < *j {
                Order::Less
            } else if *i == *j {
                Order::Equal
            } else {
                Order::Greater
            }
        },
    }
}

/// A copy of a field step.
pub fn duplicate_member(member: &Member) -> (copy: Member)
    ensures
        copy@ == member@,
{
    match member {
        Member::Named(name) => Member::Named(name.clone()),
        Member::Unnamed(index) => Member::Unnamed(*index),
    }
}

impl Capture {
    /// A copy of the path.
    pub fn duplicate(&self) -> (copy: Capture)
        ensures
            copy@ == self@,
    {
        let mut members: Vec<Member> = Vec::new();
        let mut i: usize = 0;
        while i < self.members.len()
            invariant
                i <= self.members.len(),
                members.len() == i,
                forall|j: int| 0 <= j < i ==> members[j]@ == self.members[j]@,
            decreases self.members.len() - i,
        {
            members.push(duplicate_member(&self.members[i]));
            i += 1;
        }
        let copy = Capture { root: self.root.clone(), members };
        assert(copy@.members =~= self@.members);
        copy
    }

    /// Compares two paths: by root, then step by step.
    pub fn compare(&self, other: &Capture) -> (order: Order)
        ensures
            order == order_of(self@, other@, |a: CaptureView, b: CaptureView| a.lt(b)),
    {
        proof {
            lemma_name_order();
            lemma_member_order();
            lemma_capture_irreflexive(self@);
            if other@.lt(self@) {
                lemma_capture_asymmetric(other@, self@);
            }
        }
        match compare_names(&self.root, &other.root) {
            Order::Less => {
                return Order::Less;
            },
            Order::Greater => {
                assert(name_lt(other.root@, self.root@));
                return Order::Greater;
            },
            Order::Equal => {},
        }
        let mut k: usize = 0;
        while k < self.members.len() && k < other.members.len()
            invariant
                k <= self.members.len(),
                k <= other.members.len(),
                forall|i: int| 0 <= i < k ==> self@.members[i] == other@.members[i],
                strict_total(member_order()),
                self.root@ == other.root@,
            decreases self.members.len() - k,
        {
            match compare_members(&self.members[k], &other.members[k]) {
                Order::Less => {
                    assert(lex_lt_at(
                        self@.members,
                        other@.members,
                        member_order(),
                        k as int,
                    ));
                    return Order::Less;
                },
                Order::Greater => {
                    assert(member_order()(other@.members[k as int], self@.members[k as int]));
                    assert(lex_lt_at(
                        other@.members,
                        self@.members,
                        member_order(),
                        k as int,
                    ));
                    assert(other@.lt(self@));
                    return Order::Greater;
                },
                Order::Equal => {},
            }
            k += 1;
        }
        if k < other.members.len() {
            assert(lex_lt_at(self@.members, other@.members, member_order(), k as int));
            Order::Less
        } else if k < self.members.len() {
            assert(lex_lt_at(other@.members, self@.members, member_order(), k as int));
            assert(other@.lt(self@));
            Order::Greater
        } else {
            assert(self@.members =~= other@.members);
            Order::Equal
        }
    }

    /// Whether `self` is `other` or an ancestor of it.
    pub fn covers(&self, other: &Capture) -> (covers: bool)
        ensures
            covers == self@.covers(other@),
    {
        if self.root != other.root {
            return false;
        }
        if self.members.len() > other.members.len() {
            return false;
        }
        let mut k: usize = 0;
        while k < self.members.len()
            invariant
                k <= self.members.len(),
                self.members.len() <= other.members.len(),
                forall|i: int| 0 <= i < k ==> self@.members[i] == other@.members[i],
            decreases self.members.len() - k,
        {
            match compare_members(&self.members[k], &other.members[k]) {
                Order::Equal => {},
                _ => {
                    proof {
                        lemma_member_order();
                    }
                    assert(self@.members[k as int] != other@.members[k as int]);
                    return false;
                },
            }
            k += 1;
        }
        true
    }
}

} // verus!
