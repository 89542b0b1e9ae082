//! Sequences of calls on a list with a cursor, and what holds of every one
//! of them.
//!
//! The statements are about [`ListState`], the view of a list; each
//! operation of the list is one transition of its view.

use crate::model::ListState;
use vstd::prelude::*;

verus! {

/// One call on a list.
pub enum Operation<T> {
    Enqueue(T),
    GetHead,
    GetTail,
    GetCurrentPosition,
    MoveForward,
    MoveBackward,
}

impl<T> ListState<T> {
    /// The state after `op`.
    pub open spec fn apply(self, op: Operation<T>) -> Self {
        match op {
            Operation::Enqueue(value) => self.enqueue(value),
            Operation::GetHead => self.remove_head(),
            Operation::GetTail => self.remove_tail(),
            Operation::GetCurrentPosition => self.remove_current(),
            Operation::MoveForward => self.move_forward(),
            Operation::MoveBackward => self.move_backward(),
        }
    }

    /// The value that `op` takes out of the list, if it takes one.
    pub open spec fn taken_by(self, op: Operation<T>) -> Option<T> {
        match op {
            Operation::GetHead => self.head(),
            Operation::GetTail => self.tail(),
            Operation::GetCurrentPosition => self.current(),
            _ => None,
        }
    }

    /// The state after `ops`, applied first to last.
    pub open spec fn apply_all(self, ops: Seq<Operation<T>>) -> Self
        decreases ops.len(),
    {
        if ops.len() == 0 {
            self
        } else {
            self.apply_all(ops.drop_last()).apply(ops.last())
        }
    }

    /// How many of `ops`, applied first to last, took a value out of the list.
    pub open spec fn taken_during(self, ops: Seq<Operation<T>>) -> nat
        decreases ops.len(),
    {
        if ops.len() == 0 {
            0
        } else {
            let so_far = self.taken_during(ops.drop_last());
            if self.apply_all(ops.drop_last()).taken_by(ops.last()) is Some {
                so_far + 1
            } else {
                so_far
            }
        }
    }

    /// The state after enqueueing `values`, first to last.
    pub open spec fn enqueue_all(self, values: Seq<T>) -> Self
        decreases values.len(),
    {
        if values.len() == 0 {
            self
        } else {
            self.enqueue_all(values.drop_last()).enqueue(values.last())
        }
    }

    /// The state after removing the head `n` times.
    pub open spec fn remove_heads(self, n: nat) -> Self
        decreases n,
    {
        if n == 0 {
            self
        } else {
            self.remove_heads((n - 1) as nat).remove_head()
        }
    }

    /// The state after removing the tail `n` times.
    pub open spec fn remove_tails(self, n: nat) -> Self
        decreases n,
    {
        if n == 0 {
            self
        } else {
            self.remove_tails((n - 1) as nat).remove_tail()
        }
    }

    /// The state after moving the cursor forward until it moves no further.
    pub open spec fn forward_to_end(self) -> Self
        decreases self.items.len() - self.cursor.unwrap_or(0),
    {
        if self.well_formed() && self.can_move_forward() {
            self.move_forward().forward_to_end()
        } else {
            self
        }
    }
}

/// How many of `ops` enqueue a value.
pub open spec fn enqueued_by<T>(ops: Seq<Operation<T>>) -> nat
    decreases ops.len(),
{
    if ops.len() == 0 {
        0
    } else {
        let so_far = enqueued_by(ops.drop_last());
        if ops.last() is Enqueue {
            so_far + 1
        } else {
            so_far
        }
    }
}

/// Every operation keeps the cursor on one of the values, or unset when
/// there is none.
pub proof fn lemma_apply_keeps_well_formed<T>(state: ListState<T>, op: Operation<T>)
    requires
        state.well_formed(),
    ensures
        state.apply(op).well_formed(),
{
}

/// Every sequence of operations keeps the cursor on one of the values, or
/// unset when there is none.
pub proof fn lemma_apply_all_keeps_well_formed<T>(state: ListState<T>, ops: Seq<Operation<T>>)
    requires
        state.well_formed(),
    ensures
        state.apply_all(ops).well_formed(),
    decreases ops.len(),
{
    if ops.len() > 0 {
        lemma_apply_all_keeps_well_formed(state, ops.drop_last());
        lemma_apply_keeps_well_formed(state.apply_all(ops.drop_last()), ops.last());
    }
}

/// After any sequence of operations, the length is what it was, plus the
/// number of values enqueued, minus the number of values taken out.
pub proof fn lemma_length_accounts_for_every_value<T>(
    state: ListState<T>,
    ops: Seq<Operation<T>>,
)
    requires
        state.well_formed(),
    ensures
        state.apply_all(ops).len() == state.len() + enqueued_by(ops) - state.taken_during(ops),
    decreases ops.len(),
{
    if ops.len() > 0 {
        lemma_length_accounts_for_every_value(state, ops.drop_last());
        lemma_apply_all_keeps_well_formed(state, ops.drop_last());
    }
}

/// Enqueueing `values` on an empty list gives a list of exactly those
/// values, in that order, with the cursor on the first of them.
pub proof fn lemma_enqueue_all_from_empty<T>(values: Seq<T>)
    ensures
        ListState::<T>::empty().enqueue_all(values).items == values,
        ListState::<T>::empty().enqueue_all(values).cursor == if values.len() == 0 {
            None
        } else {
            Some(0int)
        },
    decreases values.len(),
{
    if values.len() > 0 {
        lemma_enqueue_all_from_empty(values.drop_last());
    }
}

/// Removing the head `n` times drops the first `n` values.
pub proof fn lemma_remove_heads<T>(state: ListState<T>, n: nat)
    requires
        n <= state.len(),
    ensures
        state.remove_heads(n).items == state.items.subrange(n as int, state.len() as int),
    decreases n,
{
    if n > 0 {
        lemma_remove_heads(state, (n - 1) as nat);
        assert(state.items.subrange(n - 1, state.len() as int).remove(0) =~= state.items.subrange(
            n as int,
            state.len() as int,
        ));
    }
}

/// Removing the tail `n` times drops the last `n` values.
pub proof fn lemma_remove_tails<T>(state: ListState<T>, n: nat)
    requires
        n <= state.len(),
    ensures
        state.remove_tails(n).items == state.items.subrange(0, state.len() - n),
    decreases n,
{
    if n > 0 {
        lemma_remove_tails(state, (n - 1) as nat);
    }
}

/// Values enqueued on an empty list come back from the head in the order
/// in which they went in: the removal that follows `n` others yields
/// `values[n]`, and the removal after all of them yields nothing.
pub proof fn lemma_round_trip_from_head<T>(values: Seq<T>, n: nat)
    requires
        n <= values.len(),
    ensures
        ListState::<T>::empty().enqueue_all(values).remove_heads(n).head() == if n < values.len() {
            Some(values[n as int])
        } else {
            None
        },
{
    lemma_enqueue_all_from_empty(values);
    lemma_remove_heads(ListState::<T>::empty().enqueue_all(values), n);
}

/// Values enqueued on an empty list come back from the tail in reverse
/// order: the removal that follows `n` others yields the value `n` places
/// before the last, and the removal after all of them yields nothing.
pub proof fn lemma_round_trip_from_tail<T>(values: Seq<T>, n: nat)
    requires
        n <= values.len(),
    ensures
        ListState::<T>::empty().enqueue_all(values).remove_tails(n).tail() == if n < values.len() {
            Some(values[values.len() - 1 - n])
        } else {
            None
        },
{
    lemma_enqueue_all_from_empty(values);
    lemma_remove_tails(ListState::<T>::empty().enqueue_all(values), n);
}

/// Once a removal has emptied the list, nothing is left at the head, at the
/// tail or under the cursor, the length is zero, and further removals
/// change nothing.
pub proof fn lemma_emptied_list_yields_nothing<T>(state: ListState<T>, op: Operation<T>)
    requires
        state.well_formed(),
        state.taken_by(op) is Some,
        state.apply(op).len() == 0,
    ensures
        state.apply(op) == ListState::<T>::empty(),
        state.apply(op).head() is None,
        state.apply(op).tail() is None,
        state.apply(op).current() is None,
        state.apply(op).remove_head() == state.apply(op),
        state.apply(op).remove_tail() == state.apply(op),
        state.apply(op).remove_current() == state.apply(op),
{
    assert(state.apply(op).items =~= Seq::<T>::empty());
}

/// The first value enqueued on an empty list is under the cursor.
pub proof fn lemma_cursor_starts_at_head<T>(value: T)
    ensures
        ListState::<T>::empty().enqueue(value).cursor == Some(0int),
        ListState::<T>::empty().enqueue(value).current() == Some(value),
{
}

/// Moving the cursor forward until it moves no further leaves it on the
/// last value, which is then the one that removal at the cursor yields.
pub proof fn lemma_forward_to_end_reaches_tail<T>(state: ListState<T>)
    requires
        state.well_formed(),
        state.len() > 0,
    ensures
        !state.forward_to_end().can_move_forward(),
        state.forward_to_end().items == state.items,
        state.forward_to_end().cursor == Some(state.len() - 1),
        state.forward_to_end().current() == Some(state.items.last()),
        state.forward_to_end().taken_by(Operation::GetCurrentPosition) == Some(state.items.last()),
    decreases state.items.len() - state.cursor.unwrap_or(0),
{
    if state.can_move_forward() {
        lemma_forward_to_end_reaches_tail(state.move_forward());
    }
}

/// After any number of values were enqueued on an empty list, moving the
/// cursor forward until it moves no further and then removing the value
/// under it yields the value that was enqueued last.
pub proof fn lemma_forward_to_end_reaches_last_enqueued<T>(values: Seq<T>)
    requires
        values.len() > 0,
    ensures
        ListState::<T>::empty().enqueue_all(values).forward_to_end().taken_by(
            Operation::GetCurrentPosition,
        ) == Some(values.last()),
{
    lemma_enqueue_all_from_empty(values);
    lemma_forward_to_end_reaches_tail(ListState::<T>::empty().enqueue_all(values));
}

} // verus!
