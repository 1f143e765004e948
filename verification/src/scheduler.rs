//! The fair poll round that drives the strands of a join, as a state machine.
//!
//! A join holds one output slot for each strand, empty until the strand has
//! run to its end. One round polls each strand whose slot is still empty,
//! once, in ascending order of position. A strand that is not ready is passed
//! over; one that ends with a value fills its slot; one that ends with an
//! exit finishes the join at once with that exit, and no strand after it is
//! polled. A round that leaves every slot filled finishes the join with the
//! values of the slots in the order of the strands.

use vstd::prelude::*;

verus! {

/// What one poll of a strand gave.
#[derive(Debug, PartialEq, Eq)]
pub enum Polled<V, E> {
    /// The strand is not ready yet.
    Pending,
    /// The strand ran to its end, with this value.
    Keep(V),
    /// The strand left its block by this exit.
    Escape(E),
}

/// What one round of the join gave.
#[derive(Debug, PartialEq, Eq)]
pub enum Joint<V, E> {
    /// Some strand is not ready yet.
    Pending,
    /// Every strand ran to its end: the values, in the order of the strands.
    Keep(Vec<V>),
    /// A strand left its block by this exit.
    Escape(E),
}

/// Model of [`Joint`].
pub enum JointView<V, E> {
    Pending,
    Keep(Seq<V>),
    Escape(E),
}

impl<V, E> View for Joint<V, E> {
    type V = JointView<V, E>;

    open spec fn view(&self) -> JointView<V, E> {
        match self {
            Joint::Pending => JointView::Pending,
            Joint::Keep(values) => JointView::Keep(values@),
            Joint::Escape(exit) => JointView::Escape(*exit),
        }
    }
}

/// A computation that is advanced by polling it.
pub trait Strand {
    /// The value with which the strand ends.
    type Value;

    /// The exits by which the strand may leave its block.
    type Escape;

    /// Advances the strand as far as it can go.
    fn poll(&mut self) -> Polled<Self::Value, Self::Escape>;
}

/// The output slots of a join.
pub struct Scheduler<V> {
    slots: Vec<Option<V>>,
    num_left: usize,
}

/// The number of empty slots among the first `count`.
pub open spec fn empties<V>(slots: Seq<Option<V>>, count: nat) -> nat
    decreases count,
{
    if count == 0 || count > slots.len() {
        0
    } else if slots[count - 1] is None {
        empties(slots, (count - 1) as nat) + 1
    } else {
        empties(slots, (count - 1) as nat)
    }
}

/// The values of the slots, in order.
pub open spec fn values_of<V>(slots: Seq<Option<V>>) -> Seq<V> {
    Seq::new(slots.len(), |i: int| slots[i]->Some_0)
}

/// The slots after the strands from position `from` on were polled in a
/// round in which strand `i`, if polled, gives `outcomes[i]`; and the exit
/// that ended the round, if one did.
pub open spec fn sweep<V, E>(
    slots: Seq<Option<V>>,
    outcomes: Seq<Polled<V, E>>,
    from: nat,
) -> (Seq<Option<V>>, Option<E>)
    decreases slots.len() - from,
{
    if from >= slots.len() {
        (slots, None)
    } else if slots[from as int] is Some {
        sweep(slots, outcomes, from + 1)
    } else {
        match outcomes[from as int] {
            Polled::Pending => sweep(slots, outcomes, from + 1),
            Polled::Keep(value) => sweep(
                slots.update(from as int, Some(value)),
                outcomes,
                from + 1,
            ),
            Polled::Escape(exit) => (slots, Some(exit)),
        }
    }
}

/// The positions of the strands that a round polls, from position `from` on,
/// in the order in which it polls them.
pub open spec fn polled<V, E>(
    slots: Seq<Option<V>>,
    outcomes: Seq<Polled<V, E>>,
    from: nat,
) -> Seq<nat>
    decreases slots.len() - from,
{
    if from >= slots.len() {
        Seq::empty()
    } else if slots[from as int] is Some {
        polled(slots, outcomes, from + 1)
    } else if outcomes[from as int] is Escape {
        seq![from]
    } else {
        seq![from] + polled(slots, outcomes, from + 1)
    }
}

/// The slots after a round, and what the round gives: the exit that ended
/// it; or, where it left no slot empty, the values of the slots, which are
/// given out; or that some strand is not ready.
pub open spec fn round<V, E>(slots: Seq<Option<V>>, outcomes: Seq<Polled<V, E>>) -> (
    Seq<Option<V>>,
    JointView<V, E>,
) {
    let (after, exit) = sweep(slots, outcomes, 0);
    match exit {
        Some(exit) => (after, JointView::Escape(exit)),
        None => if empties(after, after.len()) == 0 {
            (Seq::empty(), JointView::Keep(values_of(after)))
        } else {
            (after, JointView::Pending)
        },
    }
}

/// Filling an empty slot leaves one empty slot less.
pub proof fn lemma_empties_fill<V>(slots: Seq<Option<V>>, index: int, value: V, count: nat)
    requires
        0 <= index < slots.len(),
        slots[index] is None,
        count <= slots.len(),
    ensures
        empties(slots.update(index, Some(value)), count) == if index < count {
            (empties(slots, count) - 1) as nat
        } else {
            empties(slots, count)
        },
        index < count ==> empties(slots, count) > 0,
    decreases count,
{
    if count > 0 {
        lemma_empties_fill(slots, index, value, (count - 1) as nat);
    }
}

/// Where no slot is empty, every slot holds a value; and where one is empty,
/// the count is not zero.
pub proof fn lemma_empties_none<V>(slots: Seq<Option<V>>, count: nat)
    requires
        count <= slots.len(),
    ensures
        empties(slots, count) == 0 <==> forall|i: int| 0 <= i < count ==> slots[i] is Some,
        empties(slots, count) <= count,
    decreases count,
{
    if count > 0 {
        lemma_empties_none(slots, (count - 1) as nat);
        if empties(slots, count) == 0 {
            assert forall|i: int| 0 <= i < count implies slots[i] is Some by {
                if i < count - 1 {
                }
            }
        }
    }
}

/// Fairness: a round polls strands in ascending order of position, each at
/// most once, and only strands whose slot is empty.
pub proof fn lemma_polled_ascending<V, E>(
    slots: Seq<Option<V>>,
    outcomes: Seq<Polled<V, E>>,
    from: nat,
)
    ensures
        forall|i: int|
            0 <= i < polled(slots, outcomes, from).len() ==> {
                let at = #[trigger] polled(slots, outcomes, from)[i];
                from <= at < slots.len() && slots[at as int] is None
            },
        forall|i: int, j: int|
            0 <= i < j < polled(slots, outcomes, from).len() ==> polled(slots, outcomes, from)[i]
                < polled(slots, outcomes, from)[j],
    decreases slots.len() - from,
{
    if from < slots.len() {
        lemma_polled_ascending(slots, outcomes, from + 1);
        let all = polled(slots, outcomes, from);
        let rest = polled(slots, outcomes, from + 1);
        if slots[from as int] is Some {
        } else if outcomes[from as int] is Escape {
        } else {
            assert forall|i: int| 0 <= i < all.len() implies {
                let at = #[trigger] all[i];
                from <= at < slots.len() && slots[at as int] is None
            } by {
                if i > 0 {
                    assert(all[i] == rest[i - 1]);
                }
            }
            assert forall|i: int, j: int| 0 <= i < j < all.len() implies all[i] < all[j] by {
                assert(all[j] == rest[j - 1]);
                if i > 0 {
                    assert(all[i] == rest[i - 1]);
                }
            }
        }
    }
}

/// What a sweep from position `from` on leaves: the slots before `from` as
/// they were; a slot that was filled as it was; and where no exit ended the
/// sweep, each empty slot filled exactly where its strand ended with a value.
pub proof fn lemma_sweep_slots<V, E>(
    slots: Seq<Option<V>>,
    outcomes: Seq<Polled<V, E>>,
    from: nat,
)
    ensures
        sweep(slots, outcomes, from).0.len() == slots.len(),
        forall|i: int|
            0 <= i < slots.len() && (i < from || slots[i] is Some) ==> sweep(
                slots,
                outcomes,
                from,
            ).0[i] == slots[i],
        sweep(slots, outcomes, from).1 is None ==> forall|i: int|
            from <= i < slots.len() && slots[i] is None ==> sweep(slots, outcomes, from).0[i]
                == match outcomes[i] {
                Polled::Keep(value) => Some(value),
                _ => None::<V>,
            } && !(outcomes[i] is Escape),
    decreases slots.len() - from,
{
    let after = sweep(slots, outcomes, from).0;
    if from < slots.len() {
        if slots[from as int] is Some {
            lemma_sweep_slots(slots, outcomes, from + 1);
        } else {
            match outcomes[from as int] {
                Polled::Pending => {
                    lemma_sweep_slots(slots, outcomes, from + 1);
                },
                Polled::Keep(value) => {
                    let filled = slots.update(from as int, Some(value));
                    lemma_sweep_slots(filled, outcomes, from + 1);
                    assert forall|i: int|
                        0 <= i < slots.len() && (i < from || slots[i] is Some) implies after[i]
                        == slots[i] by {
                        assert(filled[i] == slots[i]);
                    }
                    assert(after[from as int] == filled[from as int]);
                    if sweep(slots, outcomes, from).1 is None {
                        assert forall|i: int|
                            from <= i < slots.len() && slots[i] is None implies after[i]
                            == match outcomes[i] {
                            Polled::Keep(value) => Some(value),
                            _ => None::<V>,
                        } && !(outcomes[i] is Escape) by {
                            if i > from {
                                assert(filled[i] == slots[i]);
                            }
                        }
                    }
                },
                Polled::Escape(exit) => {},
            }
        }
    }
}

/// Exit propagation: a sweep ends with an exit exactly where some polled
/// strand leaves by one. The exit is that of the first such strand, handed
/// on unchanged, and no slot behind that strand has changed.
pub proof fn lemma_sweep_exit<V, E>(
    slots: Seq<Option<V>>,
    outcomes: Seq<Polled<V, E>>,
    from: nat,
)
    ensures
        match sweep(slots, outcomes, from).1 {
            Some(exit) => exists|at: int|
                {
                    &&& from <= at < slots.len()
                    &&& slots[at] is None
                    &&& #[trigger] outcomes[at] == Polled::<V, E>::Escape(exit)
                    &&& forall|i: int|
                        from <= i < at && slots[i] is None ==> !(outcomes[i] is Escape)
                    &&& forall|i: int|
                        at <= i < slots.len() ==> sweep(slots, outcomes, from).0[i] == slots[i]
                },
            None => forall|i: int|
                from <= i < slots.len() && slots[i] is None ==> !(outcomes[i] is Escape),
        },
    decreases slots.len() - from,
{
    if from < slots.len() {
        if slots[from as int] is Some {
            lemma_sweep_exit(slots, outcomes, from + 1);
            lemma_exit_from(slots, slots, outcomes, from);
        } else {
            match outcomes[from as int] {
                Polled::Pending => {
                    lemma_sweep_exit(slots, outcomes, from + 1);
                    lemma_exit_from(slots, slots, outcomes, from);
                },
                Polled::Keep(value) => {
                    let filled = slots.update(from as int, Some(value));
                    lemma_sweep_exit(filled, outcomes, from + 1);
                    lemma_exit_from(slots, filled, outcomes, from);
                },
                Polled::Escape(exit) => {
                    assert(outcomes[from as int] == Polled::<V, E>::Escape(exit));
                },
            }
        }
    }
}

/// The step of [`lemma_sweep_exit`]: from the sweep behind a strand that did
/// not leave to the sweep from that strand on.
proof fn lemma_exit_from<V, E>(
    slots: Seq<Option<V>>,
    next: Seq<Option<V>>,
    outcomes: Seq<Polled<V, E>>,
    from: nat,
)
    requires
        from < slots.len(),
        next.len() == slots.len(),
        forall|i: int| 0 <= i < slots.len() && i != from ==> next[i] == slots[i],
        slots[from as int] is None ==> !(outcomes[from as int] is Escape),
        sweep(slots, outcomes, from) == sweep(next, outcomes, from + 1),
        match sweep(next, outcomes, from + 1).1 {
            Some(exit) => exists|at: int|
                {
                    &&& from + 1 <= at < next.len()
                    &&& next[at] is None
                    &&& #[trigger] outcomes[at] == Polled::<V, E>::Escape(exit)
                    &&& forall|i: int|
                        from + 1 <= i < at && next[i] is None ==> !(outcomes[i] is Escape)
                    &&& forall|i: int|
                        at <= i < next.len() ==> sweep(next, outcomes, from + 1).0[i] == next[i]
                },
            None => forall|i: int|
                from + 1 <= i < next.len() && next[i] is None ==> !(outcomes[i] is Escape),
        },
    ensures
        match sweep(slots, outcomes, from).1 {
            Some(exit) => exists|at: int|
                {
                    &&& from <= at < slots.len()
                    &&& slots[at] is None
                    &&& #[trigger] outcomes[at] == Polled::<V, E>::Escape(exit)
                    &&& forall|i: int|
                        from <= i < at && slots[i] is None ==> !(outcomes[i] is Escape)
                    &&& forall|i: int|
                        at <= i < slots.len() ==> sweep(slots, outcomes, from).0[i] == slots[i]
                },
            None => forall|i: int|
                from <= i < slots.len() && slots[i] is None ==> !(outcomes[i] is Escape),
        },
{
    match sweep(next, outcomes, from + 1).1 {
        Some(exit) => {
            let at = choose|at: int|
                {
                    &&& from + 1 <= at < next.len()
                    &&& next[at] is None
                    &&& #[trigger] outcomes[at] == Polled::<V, E>::Escape(exit)
                    &&& forall|i: int|
                        from + 1 <= i < at && next[i] is None ==> !(outcomes[i] is Escape)
                    &&& forall|i: int|
                        at <= i < next.len() ==> sweep(next, outcomes, from + 1).0[i] == next[i]
                };
            assert(slots[at] is None);
            assert(outcomes[at] == Polled::<V, E>::Escape(exit));
        },
        None => {},
    }
}

/// Order of the values: where a round finishes the join with values, there
/// is one value for each strand, in the order of the strands, whichever
/// strand ended first: the value that filled the strand's slot in an earlier
/// round, or the value with which the strand ended in this round.
pub proof fn lemma_round_keep<V, E>(slots: Seq<Option<V>>, outcomes: Seq<Polled<V, E>>)
    ensures
        round(slots, outcomes).1 matches JointView::Keep(values) ==> {
            &&& values.len() == slots.len()
            &&& forall|i: int|
                0 <= i < slots.len() ==> values[i] == match slots[i] {
                    Some(value) => value,
                    None => outcomes[i]->Keep_0,
                } && (slots[i] is None ==> outcomes[i] is Keep)
        },
{
    lemma_sweep_slots(slots, outcomes, 0);
    let (after, exit) = sweep(slots, outcomes, 0);
    if exit is None && empties(after, after.len()) == 0 {
        lemma_empties_none(after, after.len());
        assert forall|i: int| 0 <= i < slots.len() implies values_of(after)[i] == match slots[i] {
            Some(value) => value,
            None => outcomes[i]->Keep_0,
        } && (slots[i] is None ==> outcomes[i] is Keep) by {
            assert(after[i] is Some);
        }
    }
}

/// Determinism: what a round gives, and the slots that it leaves, depend on
/// nothing but the slots before it and on what the polled strands give.
pub proof fn lemma_round_deterministic<V, E>(
    slots: Seq<Option<V>>,
    first: Seq<Polled<V, E>>,
    second: Seq<Polled<V, E>>,
)
    requires
        first.len() == slots.len(),
        second.len() == slots.len(),
        forall|i: int| 0 <= i < slots.len() && slots[i] is None ==> first[i] == second[i],
    ensures
        round(slots, first) == round(slots, second),
        polled(slots, first, 0) == polled(slots, second, 0),
{
    lemma_sweep_same(slots, first, second, 0);
}

/// Two sweeps in which the strands with empty slots give the same give the
/// same.
proof fn lemma_sweep_same<V, E>(
    slots: Seq<Option<V>>,
    first: Seq<Polled<V, E>>,
    second: Seq<Polled<V, E>>,
    from: nat,
)
    requires
        first.len() == slots.len(),
        second.len() == slots.len(),
        forall|i: int| from <= i < slots.len() && slots[i] is None ==> first[i] == second[i],
    ensures
        sweep(slots, first, from) == sweep(slots, second, from),
        polled(slots, first, from) == polled(slots, second, from),
    decreases slots.len() - from,
{
    if from < slots.len() {
        if slots[from as int] is Some {
            lemma_sweep_same(slots, first, second, from + 1);
        } else {
            match first[from as int] {
                Polled::Pending => {
                    lemma_sweep_same(slots, first, second, from + 1);
                },
                Polled::Keep(value) => {
                    lemma_sweep_same(
                        slots.update(from as int, Some(value)),
                        first,
                        second,
                        from + 1,
                    );
                    lemma_polled_slots(
                        slots,
                        slots.update(from as int, Some(value)),
                        first,
                        from + 1,
                    );
                    lemma_polled_slots(
                        slots,
                        slots.update(from as int, Some(value)),
                        second,
                        from + 1,
                    );
                },
                Polled::Escape(exit) => {},
            }
        }
    }
}

/// Which strands a round polls from a position on depends on the slots from
/// that position on only.
proof fn lemma_polled_slots<V, E>(
    slots: Seq<Option<V>>,
    other: Seq<Option<V>>,
    outcomes: Seq<Polled<V, E>>,
    from: nat,
)
    requires
        slots.len() == other.len(),
        forall|i: int| from <= i < slots.len() ==> slots[i] == other[i],
    ensures
        polled(slots, outcomes, from) == polled(other, outcomes, from),
    decreases slots.len() - from,
{
    if from < slots.len() {
        lemma_polled_slots(slots, other, outcomes, from + 1);
    }
}

/// Fairness: unless an exit ends the round, it polls every strand whose slot
/// is empty.
pub proof fn lemma_polled_all<V, E>(
    slots: Seq<Option<V>>,
    outcomes: Seq<Polled<V, E>>,
    from: nat,
    at: nat,
)
    requires
        sweep(slots, outcomes, from).1 is None,
        from <= at < slots.len(),
        slots[at as int] is None,
    ensures
        polled(slots, outcomes, from).contains(at),
    decreases slots.len() - from,
{
    let all = polled(slots, outcomes, from);
    if slots[from as int] is Some {
        lemma_polled_all(slots, outcomes, from + 1, at);
    } else {
        let filled = match outcomes[from as int] {
            Polled::Keep(value) => slots.update(from as int, Some(value)),
            _ => slots,
        };
        assert(all[0] == from);
        if at > from {
            lemma_polled_slots(slots, filled, outcomes, from + 1);
            lemma_polled_all(filled, outcomes, from + 1, at);
            let rest = polled(slots, outcomes, from + 1);
            let k = choose|k: int| 0 <= k < rest.len() && rest[k] == at;
            assert(all[k + 1] == at);
        }
    }
}

/// What the join gives in the end where, from round `from` on, strand `i`
/// gives `history[r][i]` if it is polled in round `r`: what the first round
/// gives that finishes the join; and that the join is not ready, where none
/// of the rounds finishes it.
pub open spec fn play<V, E>(
    slots: Seq<Option<V>>,
    history: Seq<Seq<Polled<V, E>>>,
    from: nat,
) -> JointView<V, E>
    decreases history.len() - from,
{
    if from >= history.len() {
        JointView::Pending
    } else {
        let (after, joint) = round(slots, history[from as int]);
        match joint {
            JointView::Pending => play(after, history, from + 1),
            _ => joint,
        }
    }
}

/// Whether strand `at` ends with `value` in round `last`, after it was not
/// ready in the rounds from `from` on before that.
pub open spec fn ends_with<V, E>(
    history: Seq<Seq<Polled<V, E>>>,
    from: nat,
    at: int,
    last: int,
    value: V,
) -> bool {
    &&& from <= last < history.len()
    &&& history[last][at] == Polled::<V, E>::Keep(value)
    &&& forall|r: int| from <= r < last ==> #[trigger] history[r][at] is Pending
}

/// Whether `value` is what the strand at `at` leaves in the end: what its
/// slot holds already, or that with which the strand ends in a later round.
pub open spec fn settles<V, E>(
    slots: Seq<Option<V>>,
    history: Seq<Seq<Polled<V, E>>>,
    from: nat,
    at: int,
    value: V,
) -> bool {
    match slots[at] {
        Some(held) => value == held,
        None => exists|last: int| ends_with(history, from, at, last, value),
    }
}

/// Order of the values, over the rounds of a join: where the join ends with
/// values, the value at each position is that with which the strand at that
/// position ended, in whichever round that was and whichever strand ended
/// first.
pub proof fn lemma_play_keep<V, E>(
    slots: Seq<Option<V>>,
    history: Seq<Seq<Polled<V, E>>>,
    from: nat,
)
    ensures
        play(slots, history, from) matches JointView::Keep(values) ==> {
            &&& values.len() == slots.len()
            &&& forall|i: int|
                0 <= i < slots.len() ==> settles(slots, history, from, i, #[trigger] values[i])
        },
    decreases history.len() - from,
{
    if from < history.len() {
        let outcomes = history[from as int];
        let (after, joint) = round(slots, outcomes);
        let next = from + 1;
        lemma_sweep_slots(slots, outcomes, 0);
        match joint {
            JointView::Pending => {
                lemma_play_keep(after, history, next);
                match play(after, history, next) {
                    JointView::Keep(values) => {
                        assert(play(slots, history, from) == JointView::<V, E>::Keep(values));
                        assert(after.len() == slots.len());
                        assert forall|i: int| 0 <= i < slots.len() implies settles(
                            slots,
                            history,
                            from,
                            i,
                            #[trigger] values[i],
                        ) by {
                            assert(settles(after, history, next, i, values[i]));
                            if slots[i] is None {
                                match after[i] {
                                    Some(value) => {
                                        assert(outcomes[i] == Polled::<V, E>::Keep(value));
                                        assert(ends_with(
                                            history,
                                            from,
                                            i,
                                            from as int,
                                            values[i],
                                        ));
                                    },
                                    None => {
                                        let last = choose|last: int|
                                            ends_with(history, next, i, last, values[i]);
                                        assert(outcomes[i] is Pending);
                                        assert(ends_with(history, from, i, last, values[i]));
                                    },
                                }
                            } else {
                                assert(after[i] == slots[i]);
                            }
                        }
                    },
                    _ => {},
                }
            },
            JointView::Keep(values) => {
                lemma_round_keep(slots, outcomes);
                assert forall|i: int| 0 <= i < slots.len() implies settles(
                    slots,
                    history,
                    from,
                    i,
                    #[trigger] values[i],
                ) by {
                    if slots[i] is None {
                        assert(outcomes[i] == Polled::<V, E>::Keep(values[i]));
                        assert(ends_with(history, from, i, from as int, values[i]));
                    }
                }
            },
            JointView::Escape(exit) => {},
        }
    }
}

/// What a strand that is not ready, or that ended with a value, leaves in
/// its slot.
pub open spec fn kept<V, E>(outcome: Polled<V, E>) -> Option<V> {
    match outcome {
        Polled::Keep(value) => Some(value),
        _ => None,
    }
}

/// Whether `after` is what a sweep over the first `count` strands makes of
/// `before` where none of them leaves.
pub open spec fn advanced<V, E>(
    before: Seq<Option<V>>,
    after: Seq<Option<V>>,
    outcomes: Seq<Polled<V, E>>,
    count: nat,
) -> bool {
    &&& after.len() == before.len()
    &&& count <= before.len()
    &&& forall|i: int|
        0 <= i < before.len() ==> #[trigger] after[i] == if i < count && before[i] is None {
            kept(outcomes[i])
        } else {
            before[i]
        }
    &&& forall|i: int| 0 <= i < count && before[i] is None ==> !(#[trigger] outcomes[i] is Escape)
}

/// The slots of `after` before position `from`, and those of `before` from
/// there on.
spec fn spliced<V>(before: Seq<Option<V>>, after: Seq<Option<V>>, from: nat) -> Seq<Option<V>> {
    Seq::new(
        before.len(),
        |i: int|
            if i < from {
                after[i]
            } else {
                before[i]
            },
    )
}

/// A sweep that has come as far as `count` goes on as the rest of the whole
/// sweep does.
proof fn lemma_advanced_from<V, E>(
    before: Seq<Option<V>>,
    after: Seq<Option<V>>,
    outcomes: Seq<Polled<V, E>>,
    count: nat,
    from: nat,
)
    requires
        advanced(before, after, outcomes, count),
        from <= count,
    ensures
        sweep(spliced(before, after, from), outcomes, from) == sweep(after, outcomes, count),
    decreases count - from,
{
    let here = spliced(before, after, from);
    if from == count {
        assert(here =~= after);
    } else {
        let next = spliced(before, after, from + 1);
        lemma_advanced_from(before, after, outcomes, count, from + 1);
        assert(here[from as int] == before[from as int]);
        if before[from as int] is Some {
            assert(after[from as int] == before[from as int]);
            assert(next =~= here);
        } else {
            assert(!(outcomes[from as int] is Escape));
            assert(after[from as int] == kept(outcomes[from as int]));
            match outcomes[from as int] {
                Polled::Pending => {
                    assert(next =~= here);
                },
                Polled::Keep(value) => {
                    assert(next =~= here.update(from as int, Some(value)));
                },
                Polled::Escape(exit) => {},
            }
        }
    }
}

/// A sweep that has come as far as `count` without an exit goes on as the
/// rest of the whole sweep does.
pub proof fn lemma_advanced<V, E>(
    before: Seq<Option<V>>,
    after: Seq<Option<V>>,
    outcomes: Seq<Polled<V, E>>,
    count: nat,
)
    requires
        advanced(before, after, outcomes, count),
    ensures
        sweep(before, outcomes, 0) == sweep(after, outcomes, count),
{
    lemma_advanced_from(before, after, outcomes, count, 0);
    assert(spliced(before, after, 0) =~= before);
}

impl<V> View for Scheduler<V> {
    type V = Seq<Option<V>>;

    closed spec fn view(&self) -> Seq<Option<V>> {
        self.slots@
    }
}

impl<V> Scheduler<V> {
    /// Whether the count of the strands that are left is that of the empty
    /// slots.
    pub closed spec fn wf(&self) -> bool {
        self.num_left == empties(self.slots@, self.slots@.len())
    }

    /// The slots of a join of `count` strands, all empty.
    pub fn new(count: usize) -> (scheduler: Scheduler<V>)
        ensures
            scheduler.wf(),
            scheduler@ == Seq::new(count as nat, |i: int| None::<V>),
    {
        let mut slots: Vec<Option<V>> = Vec::new();
        let mut i: usize = 0;
        while i < count
            invariant
                i <= count,
                slots.len() == i,
                forall|j: int| 0 <= j < i ==> slots[j] is None,
            decreases count - i,
        {
            slots.push(None);
            i += 1;
        }
        proof {
            lemma_empties_all(slots@, count as nat);
        }
        assert(slots@ =~= Seq::new(count as nat, |i: int| None::<V>));
        Scheduler { slots, num_left: count }
    }

    /// The number of strands.
    pub fn len(&self) -> (count: usize)
        ensures
            count == self@.len(),
    {
        self.slots.len()
    }

    /// The number of strands that have not ended with a value yet.
    pub fn num_left(&self) -> (count: usize)
        requires
            self.wf(),
        ensures
            count == empties(self@, self@.len()),
    {
        self.num_left
    }

    /// Whether the strand at `index` has still to be polled.
    pub fn wants(&self, index: usize) -> (wanted: bool)
        requires
            index < self@.len(),
        ensures
            wanted == (self@[index as int] is None),
    {
        self.slots[index].is_none()
    }

    /// Takes note of what a poll of the strand at `index` gave. Returns the
    /// exit, where the strand left by one: the join is finished then.
    pub fn record<E>(&mut self, index: usize, polled: Polled<V, E>) -> (exit: Option<E>)
        requires
            old(self).wf(),
            index < old(self)@.len(),
            old(self)@[index as int] is None,
        ensures
            final(self).wf(),
            final(self)@ == match polled {
                Polled::Keep(value) => old(self)@.update(index as int, Some(value)),
                _ => old(self)@,
            },
            exit == match polled {
                Polled::Escape(exit) => Some(exit),
                _ => None::<E>,
            },
    {
        match polled {
            Polled::Pending => None,
            Polled::Keep(value) => {
                proof {
                    lemma_empties_fill(self.slots@, index as int, value, self.slots@.len());
                }
                self.num_left = self.num_left - 1;
                self.slots[index] = Some(value);
                None
            },
            Polled::Escape(exit) => Some(exit),
        }
    }

    /// Hands out the values, in the order of the strands, where every strand
    /// has ended with one; the slots are given up then.
    pub fn finish(&mut self) -> (values: Option<Vec<V>>)
        requires
            old(self).wf(),
        ensures
            final(self).wf(),
            match values {
                Some(all) => empties(old(self)@, old(self)@.len()) == 0 && all@ == values_of(
                    old(self)@,
                ) && final(self)@ == Seq::<Option<V>>::empty(),
                None => empties(old(self)@, old(self)@.len()) > 0 && final(self)@ == old(self)@,
            },
    {
        if self.num_left != 0 {
            return None;
        }
        let ghost before = self.slots@;
        proof {
            lemma_empties_none(before, before.len());
        }
        let mut taken: Vec<Option<V>> = Vec::new();
        core::mem::swap(&mut self.slots, &mut taken);
        let mut all: Vec<V> = Vec::new();
        for slot in it: taken
            invariant
                it.seq() == before,
                forall|i: int| 0 <= i < before.len() ==> before[i] is Some,
                all.len() == it.index(),
                forall|i: int| 0 <= i < it.index() ==> all[i] == before[i]->Some_0,
        {
            match slot {
                Some(value) => {
                    all.push(value);
                },
                None => {},
            }
        }
        assert(all@ =~= values_of(before));
        assert(self.slots@ =~= Seq::<Option<V>>::empty());
        Some(all)
    }

    /// One round of the join: polls each strand whose slot is empty, once,
    /// in ascending order of position, and stops at the first that leaves by
    /// an exit. What the round gives and the slots that it leaves are those
    /// of [`round`], for what the polled strands gave.
    pub fn poll_round<S: Strand<Value = V>>(&mut self, strands: &mut Vec<S>) -> (joint: Joint<
        V,
        S::Escape,
    >)
        requires
            old(self).wf(),
            old(strands).len() == old(self)@.len(),
        ensures
            final(self).wf(),
            final(strands).len() == old(strands).len(),
            exists|outcomes: Seq<Polled<V, S::Escape>>|
                outcomes.len() == old(self)@.len() && #[trigger] round(old(self)@, outcomes) == (
                    final(self)@,
                    joint@,
                ),
    {
        let ghost before = self@;
        let ghost mut outcomes: Seq<Polled<V, S::Escape>> = Seq::new(
            before.len(),
            |i: int| Polled::Pending,
        );
        let count = self.slots.len();
        let mut i: usize = 0;
        while i < count
            invariant
                i <= count,
                count == before.len(),
                before == old(self)@,
                strands.len() == count,
                old(strands).len() == count,
                self.wf(),
                outcomes.len() == count,
                advanced(before, self@, outcomes, i as nat),
            decreases count - i,
        {
            if self.wants(i) {
                let polled = strands[i].poll();
                let ghost seen = polled;
                let ghost slots = self@;
                proof {
                    outcomes = outcomes.update(i as int, seen);
                }
                match self.record(i, polled) {
                    Some(exit) => {
                        proof {
                            assert(advanced(before, slots, outcomes, i as nat));
                            lemma_advanced(before, slots, outcomes, i as nat);
                            assert(sweep(slots, outcomes, i as nat) == (slots, Some(exit)));
                            assert(round(before, outcomes)
                                == (self@, JointView::<V, S::Escape>::Escape(exit)));
                        }
                        return Joint::Escape(exit);
                    },
                    None => {},
                }
            }
            i += 1;
        }
        proof {
            lemma_advanced(before, self@, outcomes, count as nat);
        }
        let ghost after = self@;
        match self.finish() {
            Some(values) => {
                assert(round(before, outcomes)
                    == (self@, JointView::<V, S::Escape>::Keep(values@)));
                Joint::Keep(values)
            },
            None => {
                assert(round(before, outcomes) == (self@, JointView::<V, S::Escape>::Pending));
                Joint::Pending
            },
        }
    }
}

/// Where the first `count` slots are all empty, that is their count.
proof fn lemma_empties_all<V>(slots: Seq<Option<V>>, count: nat)
    requires
        count <= slots.len(),
        forall|i: int| 0 <= i < count ==> slots[i] is None,
    ensures
        empties(slots, count) == count,
    decreases count,
{
    if count > 0 {
        lemma_empties_all(slots, (count - 1) as nat);
    }
}

} // verus!
