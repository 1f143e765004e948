//! Which captures must be placed under run-time arbitration.
//!
//! The occurrences of all blocks are merged by path. A path that has an
//! ancestor among the paths observed is collapsed into that ancestor, so that
//! only the topmost observed paths remain. Such a path is arbitrated when two
//! different blocks touch it or something below it, and at least one of those
//! touches is not known to be read-only.
//!
//! The merge sorts the occurrences by path and sweeps once over the sorted
//! list: in that order every descendant follows its ancestor with nothing
//! unrelated in between.

use crate::path::{
    lemma_capture_asymmetric, lemma_capture_irreflexive, lemma_capture_total,
    lemma_capture_transitive, lemma_covers_antisymmetric, lemma_covers_between, lemma_covers_le,
    Capture, CaptureView, Order,
};
use vstd::prelude::*;

verus! {

/// One occurrence of a capture in one of the blocks.
#[derive(Debug, PartialEq, Eq)]
pub struct Occurrence {
    /// The path referred to.
    pub capture: Capture,
    /// Whether the occurrence is known to be only read.
    pub immutable: bool,
    /// The position of the block in the list of blocks.
    pub block: usize,
}

/// Model of [`Occurrence`].
pub struct OccurrenceView {
    pub capture: CaptureView,
    pub immutable: bool,
    pub block: nat,
}

impl View for Occurrence {
    type V = OccurrenceView;

    open spec fn view(&self) -> OccurrenceView {
        OccurrenceView {
            capture: self.capture@,
            immutable: self.immutable,
            block: self.block as nat,
        }
    }
}

/// The models of a list of occurrences, in order.
pub open spec fn occurrences_view(occurrences: Vec<Occurrence>) -> Seq<OccurrenceView> {
    Seq::new(occurrences.len() as nat, |i: int| occurrences[i]@)
}

/// The models of a list of paths, in order.
pub open spec fn captures_view(captures: Vec<Capture>) -> Seq<CaptureView> {
    Seq::new(captures.len() as nat, |i: int| captures[i]@)
}

/// Whether occurrence `m` is one of the first `count` and has the path `path`.
pub open spec fn seen_at(
    occurrences: Seq<OccurrenceView>,
    count: int,
    path: CaptureView,
    m: int,
) -> bool {
    0 <= m < count && m < occurrences.len() && occurrences[m].capture == path
}

/// Whether `path` is the path of one of the first `count` occurrences.
#[verifier::opaque]
pub open spec fn seen(occurrences: Seq<OccurrenceView>, count: int, path: CaptureView) -> bool {
    exists|m: int| seen_at(occurrences, count, path, m)
}

/// Whether occurrence `m` is one of the first `count` and touches `path` or
/// something below it.
pub open spec fn touch_at(
    occurrences: Seq<OccurrenceView>,
    count: int,
    path: CaptureView,
    m: int,
) -> bool {
    0 <= m < count && m < occurrences.len() && path.covers(occurrences[m].capture)
}

/// Whether occurrences `m` and `n` are among the first `count`, come from
/// different blocks, and both touch `path` or something below it.
pub open spec fn split_at(
    occurrences: Seq<OccurrenceView>,
    count: int,
    path: CaptureView,
    m: int,
    n: int,
) -> bool {
    touch_at(occurrences, count, path, m) && touch_at(occurrences, count, path, n)
        && occurrences[m].block != occurrences[n].block
}

/// Whether two of the first `count` occurrences, from different blocks, touch
/// `path` or something below it.
#[verifier::opaque]
pub open spec fn split(occurrences: Seq<OccurrenceView>, count: int, path: CaptureView) -> bool {
    exists|m: int, n: int| split_at(occurrences, count, path, m, n)
}

/// Whether occurrence `m` is one of the first `count`, touches `path` or
/// something below it, and is not known to be read-only.
pub open spec fn dirty_at(
    occurrences: Seq<OccurrenceView>,
    count: int,
    path: CaptureView,
    m: int,
) -> bool {
    touch_at(occurrences, count, path, m) && !occurrences[m].immutable
}

/// Whether one of the first `count` occurrences touches `path` or something
/// below it and is not known to be read-only.
#[verifier::opaque]
pub open spec fn dirty(occurrences: Seq<OccurrenceView>, count: int, path: CaptureView) -> bool {
    exists|m: int| dirty_at(occurrences, count, path, m)
}

/// Whether none of the occurrences has a path that is a proper ancestor of
/// `path`.
pub open spec fn topmost(occurrences: Seq<OccurrenceView>, path: CaptureView) -> bool {
    forall|m: int|
        0 <= m < occurrences.len() && (#[trigger] occurrences[m]).capture.covers(path)
            ==> occurrences[m].capture == path
}

/// Whether `path` must be arbitrated: it is observed, no ancestor of it is,
/// two different blocks touch it, and not every touch is read-only.
pub open spec fn is_arbitrated(occurrences: Seq<OccurrenceView>, path: CaptureView) -> bool {
    &&& seen(occurrences, occurrences.len() as int, path)
    &&& topmost(occurrences, path)
    &&& split(occurrences, occurrences.len() as int, path)
    &&& dirty(occurrences, occurrences.len() as int, path)
}

/// An occurrence with the path `path` shows that the path is seen.
pub proof fn lemma_seen(occurrences: Seq<OccurrenceView>, count: int, path: CaptureView, m: int)
    requires
        seen_at(occurrences, count, path, m),
    ensures
        seen(occurrences, count, path),
{
    reveal(seen);
}

/// Two occurrences from different blocks that touch `path` show that it is
/// split between blocks.
pub proof fn lemma_split(
    occurrences: Seq<OccurrenceView>,
    count: int,
    path: CaptureView,
    m: int,
    n: int,
)
    requires
        split_at(occurrences, count, path, m, n),
    ensures
        split(occurrences, count, path),
{
    reveal(split);
}

/// An occurrence that touches `path` and is not read-only shows that the path
/// may be written.
pub proof fn lemma_dirty(occurrences: Seq<OccurrenceView>, count: int, path: CaptureView, m: int)
    requires
        dirty_at(occurrences, count, path, m),
    ensures
        dirty(occurrences, count, path),
{
    reveal(dirty);
}

/// An occurrence that shows that a seen path is seen.
pub proof fn lemma_seen_witness(
    occurrences: Seq<OccurrenceView>,
    count: int,
    path: CaptureView,
) -> (m: int)
    requires
        seen(occurrences, count, path),
    ensures
        seen_at(occurrences, count, path, m),
{
    reveal(seen);
    choose|m: int| seen_at(occurrences, count, path, m)
}

/// Two occurrences that show that a split path is split.
pub proof fn lemma_split_witness(
    occurrences: Seq<OccurrenceView>,
    count: int,
    path: CaptureView,
) -> (pair: (int, int))
    requires
        split(occurrences, count, path),
    ensures
        split_at(occurrences, count, path, pair.0, pair.1),
{
    reveal(split);
    choose|m: int, n: int| split_at(occurrences, count, path, m, n)
}

/// An occurrence that shows that a path that may be written may be.
pub proof fn lemma_dirty_witness(
    occurrences: Seq<OccurrenceView>,
    count: int,
    path: CaptureView,
) -> (m: int)
    requires
        dirty(occurrences, count, path),
    ensures
        dirty_at(occurrences, count, path, m),
{
    reveal(dirty);
    choose|m: int| dirty_at(occurrences, count, path, m)
}

/// Whether the paths stand in strictly ascending order.
pub open spec fn strictly_sorted(paths: Seq<CaptureView>) -> bool {
    forall|i: int, j: int|
        0 <= i < j < paths.len() ==> (#[trigger] paths[i]).lt(#[trigger] paths[j])
}

/// Whether the occurrences stand in ascending order of their paths.
pub open spec fn sorted_by_path(occurrences: Seq<OccurrenceView>) -> bool {
    forall|i: int, j: int|
        0 <= i < j < occurrences.len() ==> (#[trigger] occurrences[i]).capture.le(
            (#[trigger] occurrences[j]).capture,
        )
}

/// Whether two lists hold the same occurrences, in whatever order and number.
pub open spec fn same_occurrences(a: Seq<OccurrenceView>, b: Seq<OccurrenceView>) -> bool {
    forall|o: OccurrenceView| a.contains(o) <==> b.contains(o)
}

/// Which paths are arbitrated depends on which occurrences there are, not on
/// their order.
pub proof fn lemma_arbitrated_same(
    a: Seq<OccurrenceView>,
    b: Seq<OccurrenceView>,
    path: CaptureView,
)
    requires
        same_occurrences(a, b),
    ensures
        is_arbitrated(a, path) == is_arbitrated(b, path),
{
    lemma_arbitrated_into(a, b, path);
    lemma_arbitrated_into(b, a, path);
}

proof fn lemma_arbitrated_into(a: Seq<OccurrenceView>, b: Seq<OccurrenceView>, path: CaptureView)
    requires
        same_occurrences(a, b),
    ensures
        is_arbitrated(a, path) ==> is_arbitrated(b, path),
{
    if is_arbitrated(a, path) {
        let all = a.len() as int;
        let m = lemma_seen_witness(a, all, path);
        let m2 = lemma_same_index(a, b, m);
        lemma_seen(b, b.len() as int, path, m2);
        assert forall|n: int| 0 <= n < b.len() && (#[trigger] b[n]).capture.covers(
            path,
        ) implies b[n].capture == path by {
            let n2 = lemma_same_index(b, a, n);
            assert(a[n2].capture.covers(path));
        }
        let (x, y) = lemma_split_witness(a, all, path);
        let x2 = lemma_same_index(a, b, x);
        let y2 = lemma_same_index(a, b, y);
        lemma_split(b, b.len() as int, path, x2, y2);
        let d = lemma_dirty_witness(a, all, path);
        let d2 = lemma_same_index(a, b, d);
        lemma_dirty(b, b.len() as int, path, d2);
    }
}

/// Where two lists hold the same occurrences, the second holds what stands at
/// index `m` of the first.
proof fn lemma_same_index(a: Seq<OccurrenceView>, b: Seq<OccurrenceView>, m: int) -> (n: int)
    requires
        same_occurrences(a, b),
        0 <= m < a.len(),
    ensures
        0 <= n < b.len(),
        b[n] == a[m],
{
    assert(a.contains(a[m]));
    choose|n: int| 0 <= n < b.len() && b[n] == a[m]
}

/// Sorts the occurrences by path. Occurrences of one path keep their order.
pub fn sort_occurrences(occurrences: Vec<Occurrence>) -> (sorted: Vec<Occurrence>)
    ensures
        sorted_by_path(occurrences_view(sorted)),
        same_occurrences(occurrences_view(sorted), occurrences_view(occurrences)),
        sorted.len() == occurrences.len(),
{
    let ghost input = occurrences_view(occurrences);
    let mut sorted: Vec<Occurrence> = Vec::new();
    for item in it: occurrences
        invariant
            input == occurrences_view(occurrences),
            it.seq() == occurrences@,
            sorted.len() == it.index(),
            sorted_by_path(occurrences_view(sorted)),
            forall|o: OccurrenceView|
                occurrences_view(sorted).contains(o) <==> exists|m: int|
                    0 <= m < it.index() && #[trigger] input[m] == o,
    {
        let ghost before = occurrences_view(sorted);
        let ghost taken = it.index();
        let mut at: usize = sorted.len();
        while at > 0 && is_greater(&sorted[at - 1].capture, &item.capture)
            invariant
                at <= sorted.len(),
                before == occurrences_view(sorted),
                forall|j: int|
                    at <= j < before.len() ==> item@.capture.lt(#[trigger] before[j].capture),
            decreases at,
        {
            at -= 1;
        }
        proof {
            if at > 0 {
                lemma_capture_total(before[at - 1].capture, item@.capture);
            }
            assert forall|i: int| 0 <= i < at implies (#[trigger] before[i]).capture.le(
                item@.capture,
            ) by {
                if i < at - 1 {
                    lemma_le_transitive(
                        before[i].capture,
                        before[at - 1].capture,
                        item@.capture,
                    );
                }
            }
        }
        let ghost added = item@;
        sorted.insert(at, item);
        proof {
            let after = occurrences_view(sorted);
            assert(after =~= before.insert(at as int, added));
            assert forall|i: int, j: int| 0 <= i < j < after.len() implies
                (#[trigger] after[i]).capture.le((#[trigger] after[j]).capture)
            by {
                if j < at {
                    assert(after[i] == before[i] && after[j] == before[j]);
                } else if j == at {
                    assert(after[i] == before[i]);
                } else if i < at {
                    assert(after[i] == before[i] && after[j] == before[j - 1]);
                } else if i == at {
                    assert(after[j] == before[j - 1]);
                } else {
                    assert(after[i] == before[i - 1] && after[j] == before[j - 1]);
                }
            }
            assert forall|o: OccurrenceView| after.contains(o) <==> exists|m: int|
                0 <= m < taken + 1 && #[trigger] input[m] == o by {
                if after.contains(o) {
                    let i = choose|i: int| 0 <= i < after.len() && after[i] == o;
                    if i < at {
                        assert(before[i] == o);
                        assert(before.contains(o));
                    } else if i == at {
                        assert(input[taken] == o);
                    } else {
                        assert(before[i - 1] == o);
                        assert(before.contains(o));
                    }
                }
                if exists|m: int| 0 <= m < taken + 1 && #[trigger] input[m] == o {
                    let m = choose|m: int| 0 <= m < taken + 1 && #[trigger] input[m] == o;
                    if m == taken {
                        assert(after[at as int] == o);
                    } else {
                        assert(before.contains(o));
                        let i = choose|i: int| 0 <= i < before.len() && before[i] == o;
                        if i < at {
                            assert(after[i] == o);
                        } else {
                            assert(after[i + 1] == o);
                        }
                    }
                }
            }
        }
    }
    proof {
        let after = occurrences_view(sorted);
        assert forall|o: OccurrenceView| after.contains(o) <==> input.contains(o) by {
            if input.contains(o) {
                let m = choose|m: int| 0 <= m < input.len() && input[m] == o;
                assert(input[m] == o);
            }
        }
    }
    sorted
}

/// Whether `a` comes after `b` in the order of paths.
fn is_greater(a: &Capture, b: &Capture) -> (greater: bool)
    ensures
        greater == b@.lt(a@),
{
    proof {
        lemma_capture_irreflexive(a@);
        if a@.lt(b@) {
            lemma_capture_asymmetric(a@, b@);
        }
        lemma_capture_total(a@, b@);
    }
    match a.compare(b) {
        Order::Greater => true,
        _ => false,
    }
}

/// The order of paths, with equality admitted, is transitive.
pub proof fn lemma_le_transitive(a: CaptureView, b: CaptureView, c: CaptureView)
    requires
        a.le(b),
        b.le(c),
    ensures
        a.le(c),
{
    if a != b && b != c {
        lemma_capture_transitive(a, b, c);
    }
}

/// What the sweep knows of one topmost path: the paths collapsed into it so
/// far came from one block or from several, and were all read-only or not.
struct Group {
    capture: Capture,
    block: usize,
    many: bool,
    immutable: bool,
}

/// Model of [`Group`].
pub struct GroupView {
    pub capture: CaptureView,
    pub block: nat,
    pub many: bool,
    pub immutable: bool,
}

impl View for Group {
    type V = GroupView;

    closed spec fn view(&self) -> GroupView {
        GroupView {
            capture: self.capture@,
            block: self.block as nat,
            many: self.many,
            immutable: self.immutable,
        }
    }
}

/// The models of a list of groups, in order.
spec fn groups_view(groups: Vec<Group>) -> Seq<GroupView> {
    Seq::new(groups.len() as nat, |i: int| groups[i]@)
}

/// Whether the path of group `i` is `path` or an ancestor of it.
spec fn held_at(groups: Seq<GroupView>, path: CaptureView, i: int) -> bool {
    0 <= i < groups.len() && groups[i].capture.covers(path)
}

/// Whether the path of one of the groups is `path` or an ancestor of it.
#[verifier::opaque]
spec fn held(groups: Seq<GroupView>, path: CaptureView) -> bool {
    exists|i: int| held_at(groups, path, i)
}

proof fn lemma_held(groups: Seq<GroupView>, path: CaptureView, i: int)
    requires
        held_at(groups, path, i),
    ensures
        held(groups, path),
{
    reveal(held);
}

proof fn lemma_held_witness(groups: Seq<GroupView>, path: CaptureView) -> (i: int)
    requires
        held(groups, path),
    ensures
        held_at(groups, path, i),
{
    reveal(held);
    choose|i: int| held_at(groups, path, i)
}

/// Whether occurrence `m` is one of the first `count`, comes from block
/// `block` and touches `path` or something below it.
spec fn anchored_at(
    occurrences: Seq<OccurrenceView>,
    count: int,
    path: CaptureView,
    block: nat,
    m: int,
) -> bool {
    touch_at(occurrences, count, path, m) && occurrences[m].block == block
}

/// Whether one of the first `count` occurrences, from block `block`, touches
/// `path` or something below it.
#[verifier::opaque]
spec fn anchored(
    occurrences: Seq<OccurrenceView>,
    count: int,
    path: CaptureView,
    block: nat,
) -> bool {
    exists|m: int| anchored_at(occurrences, count, path, block, m)
}

proof fn lemma_anchored(
    occurrences: Seq<OccurrenceView>,
    count: int,
    path: CaptureView,
    block: nat,
    m: int,
)
    requires
        anchored_at(occurrences, count, path, block, m),
    ensures
        anchored(occurrences, count, path, block),
{
    reveal(anchored);
}

proof fn lemma_anchored_witness(
    occurrences: Seq<OccurrenceView>,
    count: int,
    path: CaptureView,
    block: nat,
) -> (m: int)
    requires
        anchored(occurrences, count, path, block),
    ensures
        anchored_at(occurrences, count, path, block, m),
{
    reveal(anchored);
    choose|m: int| anchored_at(occurrences, count, path, block, m)
}

/// The paths of the groups ascend strictly.
spec fn groups_ascend(groups: Seq<GroupView>) -> bool {
    forall|i: int, j: int|
        0 <= i < j < groups.len() ==> (#[trigger] groups[i]).capture.lt(
            (#[trigger] groups[j]).capture,
        )
}

/// No group's path is an ancestor of another's.
spec fn groups_apart(groups: Seq<GroupView>) -> bool {
    forall|i: int, j: int|
        0 <= i < groups.len() && 0 <= j < groups.len() && i != j ==>
            !(#[trigger] groups[i]).capture.covers((#[trigger] groups[j]).capture)
}

/// Each group's path is that of an occurrence taken, and one occurrence from
/// the group's first block lies under it.
spec fn groups_founded(groups: Seq<GroupView>, sorted: Seq<OccurrenceView>, count: int) -> bool {
    forall|i: int|
        0 <= i < groups.len() ==> seen(sorted, count, (#[trigger] groups[i]).capture) && anchored(
            sorted,
            count,
            groups[i].capture,
            groups[i].block,
        )
}

/// Each occurrence taken lies under a group.
spec fn all_held(groups: Seq<GroupView>, sorted: Seq<OccurrenceView>, count: int) -> bool {
    forall|m: int| 0 <= m < count ==> held(groups, (#[trigger] sorted[m]).capture)
}

/// A group that is not marked as touched by several blocks holds occurrences
/// of its first block only; one marked read-only holds read-only occurrences
/// only.
spec fn marks_sound(groups: Seq<GroupView>, sorted: Seq<OccurrenceView>, count: int) -> bool {
    forall|i: int, m: int|
        0 <= i < groups.len() && 0 <= m < count && (#[trigger] groups[i]).capture.covers(
            (#[trigger] sorted[m]).capture,
        ) ==> (groups[i].many || sorted[m].block == groups[i].block) && (groups[i].immutable
            ==> sorted[m].immutable)
}

/// A group marked as touched by several blocks is, and one not marked
/// read-only holds an occurrence that is not.
spec fn marks_owed(groups: Seq<GroupView>, sorted: Seq<OccurrenceView>, count: int) -> bool {
    forall|i: int|
        0 <= i < groups.len() ==> ((#[trigger] groups[i]).many ==> split(
            sorted,
            count,
            groups[i].capture,
        )) && (!groups[i].immutable ==> dirty(sorted, count, groups[i].capture))
}

/// What holds of the groups after the sweep has taken the first `count` of
/// the sorted occurrences.
spec fn swept(groups: Seq<GroupView>, sorted: Seq<OccurrenceView>, count: int) -> bool {
    &&& 0 <= count <= sorted.len()
    &&& groups_ascend(groups)
    &&& groups_apart(groups)
    &&& groups_founded(groups, sorted, count)
    &&& all_held(groups, sorted, count)
    &&& count > 0 ==> groups.len() > 0 && groups.last().capture.covers(
        sorted[count - 1].capture,
    )
    &&& marks_sound(groups, sorted, count)
    &&& marks_owed(groups, sorted, count)
}

/// What is known of the first `count` occurrences is known of more of them.
proof fn lemma_more(sorted: Seq<OccurrenceView>, count: int, path: CaptureView, block: nat)
    requires
        0 <= count < sorted.len(),
    ensures
        seen(sorted, count, path) ==> seen(sorted, count + 1, path),
        split(sorted, count, path) ==> split(sorted, count + 1, path),
        dirty(sorted, count, path) ==> dirty(sorted, count + 1, path),
        anchored(sorted, count, path, block) ==> anchored(sorted, count + 1, path, block),
{
    if seen(sorted, count, path) {
        let m = lemma_seen_witness(sorted, count, path);
        lemma_seen(sorted, count + 1, path, m);
    }
    if split(sorted, count, path) {
        let (m, n) = lemma_split_witness(sorted, count, path);
        lemma_split(sorted, count + 1, path, m, n);
    }
    if dirty(sorted, count, path) {
        let m = lemma_dirty_witness(sorted, count, path);
        lemma_dirty(sorted, count + 1, path, m);
    }
    if anchored(sorted, count, path, block) {
        let m = lemma_anchored_witness(sorted, count, path, block);
        lemma_anchored(sorted, count + 1, path, block, m);
    }
}

/// In the order of the sweep, the next occurrence can only belong to the
/// newest group: no older group holds it, and it holds no group.
proof fn lemma_next_apart(groups: Seq<GroupView>, sorted: Seq<OccurrenceView>, count: int, i: int)
    requires
        swept(groups, sorted, count),
        sorted_by_path(sorted),
        count < sorted.len(),
        0 <= i < groups.len(),
        i < groups.len() - 1 || !groups.last().capture.covers(sorted[count].capture),
    ensures
        !groups[i].capture.covers(sorted[count].capture),
        !sorted[count].capture.covers(groups[i].capture),
        groups[i].capture.lt(sorted[count].capture),
{
    let next = sorted[count].capture;
    let last = groups.last().capture;
    let mine = groups[i].capture;
    // every group has been seen, so the sweep is past its first occurrence
    let m = lemma_seen_witness(sorted, count, last);
    assert(count > 0);
    let previous = sorted[count - 1].capture;
    lemma_covers_le(last, previous);
    assert(sorted[count - 1].capture.le(sorted[count].capture));
    lemma_le_transitive(last, previous, next);
    if i < groups.len() - 1 {
        assert(groups[i].capture.lt(groups[groups.len() - 1].capture));
        lemma_le_transitive(mine, last, next);
        if mine.covers(next) {
            lemma_covers_between(mine, last, next);
            assert(groups[i].capture.covers(groups[groups.len() - 1].capture));
            assert(false);
        }
    }
    assert(mine.le(next));
    if next.covers(mine) {
        lemma_covers_le(next, mine);
        if next != mine {
            lemma_capture_asymmetric(next, mine);
        }
        assert(mine.covers(next));
        assert(false);
    }
    if mine == next {
        assert(mine.covers(next));
    }
}

/// The sweep, where the next occurrence lies under the newest group.
proof fn lemma_sweep_merge(
    groups: Seq<GroupView>,
    sorted: Seq<OccurrenceView>,
    count: int,
    merged: GroupView,
)
    requires
        swept(groups, sorted, count),
        sorted_by_path(sorted),
        count < sorted.len(),
        groups.len() > 0,
        groups.last().capture.covers(sorted[count].capture),
        merged.capture == groups.last().capture,
        merged.block == groups.last().block,
        merged.many == (groups.last().many || sorted[count].block != groups.last().block),
        merged.immutable == (groups.last().immutable && sorted[count].immutable),
    ensures
        swept(groups.update(groups.len() - 1, merged), sorted, count + 1),
{
    let after = groups.update(groups.len() - 1, merged);
    let top = groups.len() - 1;
    let next = sorted[count];
    assert(groups_ascend(after)) by {
        assert forall|i: int, j: int| 0 <= i < j < after.len() implies
            (#[trigger] after[i]).capture.lt((#[trigger] after[j]).capture)
        by {
            assert(groups[i].capture.lt(groups[j].capture));
        }
    }
    assert(groups_apart(after)) by {
        assert forall|i: int, j: int|
            0 <= i < after.len() && 0 <= j < after.len() && i != j implies
            !(#[trigger] after[i]).capture.covers((#[trigger] after[j]).capture)
        by {
            assert(!groups[i].capture.covers(groups[j].capture));
        }
    }
    assert(groups_founded(after, sorted, count + 1)) by {
        assert forall|i: int| 0 <= i < after.len() implies seen(
            sorted,
            count + 1,
            (#[trigger] after[i]).capture,
        ) && anchored(sorted, count + 1, after[i].capture, after[i].block) by {
            assert(seen(sorted, count, groups[i].capture));
            lemma_more(sorted, count, groups[i].capture, groups[i].block);
        }
    }
    assert(all_held(after, sorted, count + 1)) by {
        assert forall|m: int| 0 <= m < count + 1 implies held(
            after,
            (#[trigger] sorted[m]).capture,
        ) by {
            if m < count {
                let i = lemma_held_witness(groups, sorted[m].capture);
                lemma_held(after, sorted[m].capture, i);
            } else {
                lemma_held(after, sorted[m].capture, top);
            }
        }
    }
    assert(marks_sound(after, sorted, count + 1)) by {
        assert forall|i: int, m: int|
            0 <= i < after.len() && 0 <= m < count + 1 && (#[trigger] after[i]).capture.covers(
                (#[trigger] sorted[m]).capture,
            ) implies (after[i].many || sorted[m].block == after[i].block) && (
        after[i].immutable ==> sorted[m].immutable) by {
            if i < top {
                if m == count {
                    lemma_next_apart(groups, sorted, count, i);
                } else {
                    assert(groups[i].capture.covers(sorted[m].capture));
                }
            } else {
                if m < count {
                    assert(groups[i].capture.covers(sorted[m].capture));
                }
            }
        }
    }
    assert(marks_owed(after, sorted, count + 1)) by {
        assert forall|i: int| 0 <= i < after.len() implies ((#[trigger] after[i]).many ==> split(
            sorted,
            count + 1,
            after[i].capture,
        )) && (!after[i].immutable ==> dirty(sorted, count + 1, after[i].capture)) by {
            let path = groups[i].capture;
            lemma_more(sorted, count, path, groups[i].block);
            if i == top {
                if after[i].many && !groups[i].many {
                    let m = lemma_anchored_witness(sorted, count, path, groups[i].block);
                    lemma_split(sorted, count + 1, path, m, count);
                }
                if !after[i].immutable && groups[i].immutable {
                    lemma_dirty(sorted, count + 1, path, count);
                }
            }
        }
    }
}

/// The sweep, where the next occurrence lies under no group and founds one.
proof fn lemma_sweep_found(
    groups: Seq<GroupView>,
    sorted: Seq<OccurrenceView>,
    count: int,
    founded: GroupView,
)
    requires
        swept(groups, sorted, count),
        sorted_by_path(sorted),
        count < sorted.len(),
        groups.len() > 0 ==> !groups.last().capture.covers(sorted[count].capture),
        founded.capture == sorted[count].capture,
        founded.block == sorted[count].block,
        !founded.many,
        founded.immutable == sorted[count].immutable,
    ensures
        swept(groups.push(founded), sorted, count + 1),
{
    let after = groups.push(founded);
    let top = groups.len() as int;
    let next = sorted[count];
    assert forall|i: int| 0 <= i < groups.len() implies !(#[trigger] groups[i]).capture.covers(
        next.capture,
    ) && !next.capture.covers(groups[i].capture) && groups[i].capture.lt(next.capture) by {
        lemma_next_apart(groups, sorted, count, i);
    }
    assert(groups_ascend(after)) by {
        assert forall|i: int, j: int| 0 <= i < j < after.len() implies
            (#[trigger] after[i]).capture.lt((#[trigger] after[j]).capture)
        by {
            assert(after[i] == groups[i]);
            if j < top {
                assert(groups[i].capture.lt(groups[j].capture));
            }
        }
    }
    assert(groups_apart(after)) by {
        assert forall|i: int, j: int|
            0 <= i < after.len() && 0 <= j < after.len() && i != j implies
            !(#[trigger] after[i]).capture.covers((#[trigger] after[j]).capture)
        by {
            if i < top && j < top {
                assert(!groups[i].capture.covers(groups[j].capture));
            } else if i < top {
                assert(after[i] == groups[i]);
            } else {
                assert(after[j] == groups[j]);
            }
        }
    }
    assert(groups_founded(after, sorted, count + 1)) by {
        assert forall|i: int| 0 <= i < after.len() implies seen(
            sorted,
            count + 1,
            (#[trigger] after[i]).capture,
        ) && anchored(sorted, count + 1, after[i].capture, after[i].block) by {
            if i < top {
                assert(seen(sorted, count, groups[i].capture));
                lemma_more(sorted, count, groups[i].capture, groups[i].block);
            } else {
                lemma_seen(sorted, count + 1, after[i].capture, count);
                lemma_anchored(sorted, count + 1, after[i].capture, after[i].block, count);
            }
        }
    }
    assert(all_held(after, sorted, count + 1)) by {
        assert forall|m: int| 0 <= m < count + 1 implies held(
            after,
            (#[trigger] sorted[m]).capture,
        ) by {
            if m < count {
                let i = lemma_held_witness(groups, sorted[m].capture);
                assert(after[i] == groups[i]);
                lemma_held(after, sorted[m].capture, i);
            } else {
                lemma_held(after, sorted[m].capture, top);
            }
        }
    }
    assert(marks_sound(after, sorted, count + 1)) by {
        assert forall|i: int, m: int|
            0 <= i < after.len() && 0 <= m < count + 1 && (#[trigger] after[i]).capture.covers(
                (#[trigger] sorted[m]).capture,
            ) implies (after[i].many || sorted[m].block == after[i].block) && (
        after[i].immutable ==> sorted[m].immutable) by {
            if i < top {
                assert(after[i] == groups[i]);
                if m < count {
                    assert(groups[i].capture.covers(sorted[m].capture));
                }
            } else if m < count {
                // an earlier occurrence under the new path would have its
                // group over the new path as well
                lemma_covers_le(next.capture, sorted[m].capture);
                assert(sorted[m].capture.le(sorted[count].capture));
                if sorted[m].capture != next.capture {
                    lemma_capture_asymmetric(sorted[m].capture, next.capture);
                }
                let g = lemma_held_witness(groups, sorted[m].capture);
                assert(groups[g].capture.covers(next.capture));
                assert(false);
            }
        }
    }
    assert(marks_owed(after, sorted, count + 1)) by {
        assert forall|i: int| 0 <= i < after.len() implies ((#[trigger] after[i]).many ==> split(
            sorted,
            count + 1,
            after[i].capture,
        )) && (!after[i].immutable ==> dirty(sorted, count + 1, after[i].capture)) by {
            if i < top {
                assert(after[i] == groups[i]);
                lemma_more(sorted, count, groups[i].capture, groups[i].block);
            } else if !after[i].immutable {
                lemma_dirty(sorted, count + 1, after[i].capture, count);
            }
        }
    }
}

/// Whether a group stands for an arbitrated path.
spec fn flagged(group: GroupView) -> bool {
    group.many && !group.immutable
}

/// Whether group `i` stands for the arbitrated path `path`.
spec fn flagged_at(groups: Seq<GroupView>, count: int, path: CaptureView, i: int) -> bool {
    0 <= i < count && i < groups.len() && groups[i].capture == path && flagged(groups[i])
}

/// After the sweep, the arbitrated paths are those of the groups with
/// several blocks and a touch that is not read-only.
proof fn lemma_sweep_done(groups: Seq<GroupView>, sorted: Seq<OccurrenceView>, path: CaptureView)
    requires
        swept(groups, sorted, sorted.len() as int),
    ensures
        is_arbitrated(sorted, path) <==> exists|i: int|
            flagged_at(groups, groups.len() as int, path, i),
{
    let count = sorted.len() as int;
    if is_arbitrated(sorted, path) {
        let m = lemma_seen_witness(sorted, count, path);
        assert(held(groups, sorted[m].capture));
        let i = lemma_held_witness(groups, path);
        assert(seen(sorted, count, groups[i].capture));
        let n = lemma_seen_witness(sorted, count, groups[i].capture);
        assert(sorted[n].capture.covers(path));
        assert(groups[i].capture == path);
        let (x, y) = lemma_split_witness(sorted, count, path);
        assert(groups[i].capture.covers(sorted[x].capture));
        assert(groups[i].capture.covers(sorted[y].capture));
        let d = lemma_dirty_witness(sorted, count, path);
        assert(groups[i].capture.covers(sorted[d].capture));
        assert(flagged_at(groups, groups.len() as int, path, i));
    }
    if exists|i: int| flagged_at(groups, groups.len() as int, path, i) {
        let i = choose|i: int| flagged_at(groups, groups.len() as int, path, i);
        assert(seen(sorted, count, groups[i].capture));
        assert forall|m: int|
            0 <= m < sorted.len() && (#[trigger] sorted[m]).capture.covers(
                path,
            ) implies sorted[m].capture == path by {
            assert(held(groups, sorted[m].capture));
            let j = lemma_held_witness(groups, sorted[m].capture);
            assert(groups[j].capture.covers(groups[i].capture));
            lemma_covers_antisymmetric(path, sorted[m].capture);
        }
    }
}

/// One sweep over the sorted occurrences: each is collapsed into the newest
/// group where that group's path is an ancestor of it, and founds a group
/// otherwise.
fn sweep(sorted: Vec<Occurrence>) -> (groups: Vec<Group>)
    requires
        sorted_by_path(occurrences_view(sorted)),
    ensures
        swept(groups_view(groups), occurrences_view(sorted), sorted.len() as int),
{
    let ghost input = occurrences_view(sorted);
    let mut groups: Vec<Group> = Vec::new();
    proof {
        lemma_sweep_start(groups_view(groups), input);
    }
    for item in it: sorted
        invariant
            input == occurrences_view(sorted),
            it.seq() == sorted@,
            sorted_by_path(input),
            swept(groups_view(groups), input, it.index() as int),
    {
        let ghost before = groups_view(groups);
        let ghost count = it.index() as int;
        assert(item@ == input[count]);
        match groups.pop() {
            Some(newest) => {
                let mut newest = newest;
                assert(newest@ == before.last());
                let ghost rest = groups_view(groups);
                assert(rest =~= before.drop_last());
                if newest.capture.covers(&item.capture) {
                    if newest.block != item.block {
                        newest.many = true;
                    }
                    newest.immutable = newest.immutable && item.immutable;
                    proof {
                        lemma_sweep_merge(before, input, count, newest@);
                    }
                    groups.push(newest);
                    assert(groups_view(groups) =~= before.update(before.len() - 1, newest@));
                } else {
                    groups.push(newest);
                    assert(groups_view(groups) =~= before);
                    let founded = Group {
                        capture: item.capture,
                        block: item.block,
                        many: false,
                        immutable: item.immutable,
                    };
                    proof {
                        lemma_sweep_found(before, input, count, founded@);
                    }
                    groups.push(founded);
                    assert(groups_view(groups) =~= before.push(founded@));
                }
            },
            None => {
                assert(before.len() == 0);
                let founded = Group {
                    capture: item.capture,
                    block: item.block,
                    many: false,
                    immutable: item.immutable,
                };
                proof {
                    lemma_sweep_found(before, input, count, founded@);
                }
                groups.push(founded);
                assert(groups_view(groups) =~= before.push(founded@));
            },
        }
    }
    groups
}

/// Before the sweep has taken anything, there is no group.
proof fn lemma_sweep_start(groups: Seq<GroupView>, sorted: Seq<OccurrenceView>)
    requires
        groups.len() == 0,
    ensures
        swept(groups, sorted, 0),
{
}

/// Whether `chosen` holds, in ascending order, the paths of the flagged
/// groups among the first `count`.
spec fn chosen_from(chosen: Seq<CaptureView>, groups: Seq<GroupView>, count: int) -> bool {
    &&& strictly_sorted(chosen)
    &&& forall|path: CaptureView|
        chosen.contains(path) <==> exists|i: int| flagged_at(groups, count, path, i)
}

/// Taking the next group into the choice, where it is flagged.
proof fn lemma_choose_next(chosen: Seq<CaptureView>, groups: Seq<GroupView>, count: int)
    requires
        chosen_from(chosen, groups, count),
        groups_ascend(groups),
        0 <= count < groups.len(),
    ensures
        flagged(groups[count]) ==> chosen_from(
            chosen.push(groups[count].capture),
            groups,
            count + 1,
        ),
        !flagged(groups[count]) ==> chosen_from(chosen, groups, count + 1),
{
    let next = groups[count];
    let more = count + 1;
    if flagged(next) {
        let after = chosen.push(next.capture);
        assert forall|i: int, j: int| 0 <= i < j < after.len() implies (#[trigger] after[i]).lt(
            #[trigger] after[j],
        ) by {
            if j < chosen.len() {
                assert(chosen[i].lt(chosen[j]));
            } else {
                assert(chosen.contains(chosen[i]));
                let g = choose|g: int| flagged_at(groups, count, chosen[i], g);
                assert(groups[g].capture.lt(groups[count].capture));
            }
        }
        assert forall|path: CaptureView| after.contains(path) <==> exists|i: int|
            flagged_at(groups, more, path, i) by {
            if after.contains(path) {
                let k = choose|k: int| 0 <= k < after.len() && after[k] == path;
                if k < chosen.len() {
                    assert(chosen.contains(path));
                    let g = choose|g: int| flagged_at(groups, count, path, g);
                    assert(flagged_at(groups, more, path, g));
                } else {
                    assert(flagged_at(groups, more, path, count));
                }
            }
            if exists|i: int| flagged_at(groups, more, path, i) {
                let i = choose|i: int| flagged_at(groups, more, path, i);
                if i < count {
                    assert(flagged_at(groups, count, path, i));
                    assert(chosen.contains(path));
                    let k = choose|k: int| 0 <= k < chosen.len() && chosen[k] == path;
                    assert(after[k] == path);
                } else {
                    assert(after[chosen.len() as int] == path);
                }
            }
        }
    } else {
        assert forall|path: CaptureView| chosen.contains(path) <==> exists|i: int|
            flagged_at(groups, more, path, i) by {
            if chosen.contains(path) {
                let g = choose|g: int| flagged_at(groups, count, path, g);
                assert(flagged_at(groups, more, path, g));
            }
            if exists|i: int| flagged_at(groups, more, path, i) {
                let i = choose|i: int| flagged_at(groups, more, path, i);
                assert(flagged_at(groups, count, path, i));
            }
        }
    }
}

/// A path that only one block touches, itself or below, is not arbitrated.
pub proof fn lemma_one_block_unshared(
    occurrences: Seq<OccurrenceView>,
    path: CaptureView,
    block: nat,
)
    requires
        forall|m: int|
            0 <= m < occurrences.len() && path.covers((#[trigger] occurrences[m]).capture)
                ==> occurrences[m].block == block,
    ensures
        !is_arbitrated(occurrences, path),
{
    if split(occurrences, occurrences.len() as int, path) {
        let (m, n) = lemma_split_witness(occurrences, occurrences.len() as int, path);
        assert(occurrences[m].block == block && occurrences[n].block == block);
    }
}

/// A path that is only read wherever it is touched, itself or below, is not
/// arbitrated.
pub proof fn lemma_read_only_unshared(occurrences: Seq<OccurrenceView>, path: CaptureView)
    requires
        forall|m: int|
            0 <= m < occurrences.len() && path.covers((#[trigger] occurrences[m]).capture)
                ==> occurrences[m].immutable,
    ensures
        !is_arbitrated(occurrences, path),
{
    if dirty(occurrences, occurrences.len() as int, path) {
        let m = lemma_dirty_witness(occurrences, occurrences.len() as int, path);
        assert(occurrences[m].immutable);
    }
}

/// Whether no path of the list is an ancestor of another.
pub open spec fn all_apart(paths: Seq<CaptureView>) -> bool {
    forall|i: int, j: int|
        0 <= i < paths.len() && 0 <= j < paths.len() && i != j ==> !(#[trigger] paths[i]).covers(
            #[trigger] paths[j],
        )
}

/// Of two arbitrated paths neither is a proper ancestor of the other.
pub proof fn lemma_arbitrated_apart(
    occurrences: Seq<OccurrenceView>,
    first: CaptureView,
    second: CaptureView,
)
    requires
        is_arbitrated(occurrences, first),
        is_arbitrated(occurrences, second),
        first.covers(second),
    ensures
        first == second,
{
    let m = lemma_seen_witness(occurrences, occurrences.len() as int, first);
    assert(occurrences[m].capture.covers(second));
}

/// The paths that must be arbitrated, in ascending order: the topmost paths
/// among those observed that two different blocks touch, not all read-only.
/// No two of them are ancestor and descendant.
pub fn arbitrate(occurrences: Vec<Occurrence>) -> (arbitrated: Vec<Capture>)
    ensures
        strictly_sorted(captures_view(arbitrated)),
        all_apart(captures_view(arbitrated)),
        forall|path: CaptureView|
            captures_view(arbitrated).contains(path) <==> is_arbitrated(
                occurrences_view(occurrences),
                path,
            ),
{
    let ghost input = occurrences_view(occurrences);
    let sorted = sort_occurrences(occurrences);
    let ghost ordered = occurrences_view(sorted);
    let groups = sweep(sorted);
    let ghost all = groups_view(groups);
    let mut arbitrated: Vec<Capture> = Vec::new();
    assert(chosen_from(captures_view(arbitrated), all, 0)) by {
        assert(captures_view(arbitrated) =~= Seq::empty());
    }
    for group in it: groups
        invariant
            all == groups_view(groups),
            it.seq() == groups@,
            groups_ascend(all),
            chosen_from(captures_view(arbitrated), all, it.index() as int),
    {
        let ghost before = captures_view(arbitrated);
        let ghost taken = it.index() as int;
        assert(group@ == all[taken]);
        proof {
            lemma_choose_next(before, all, taken);
        }
        if group.many && !group.immutable {
            arbitrated.push(group.capture);
            assert(captures_view(arbitrated) =~= before.push(all[taken].capture));
        }
    }
    proof {
        assert forall|path: CaptureView|
            captures_view(arbitrated).contains(path) <==> is_arbitrated(input, path) by {
            lemma_sweep_done(all, ordered, path);
            lemma_arbitrated_same(ordered, input, path);
        }
        let chosen = captures_view(arbitrated);
        assert forall|i: int, j: int|
            0 <= i < chosen.len() && 0 <= j < chosen.len() && i != j implies
            !(#[trigger] chosen[i]).covers(#[trigger] chosen[j])
        by {
            assert(chosen.contains(chosen[i]) && chosen.contains(chosen[j]));
            if chosen[i].covers(chosen[j]) {
                lemma_arbitrated_apart(input, chosen[i], chosen[j]);
                lemma_capture_irreflexive(chosen[i]);
                if i < j {
                    assert(chosen[i].lt(chosen[j]));
                } else {
                    assert(chosen[j].lt(chosen[i]));
                }
            }
        }
    }
    arbitrated
}

} // verus!
