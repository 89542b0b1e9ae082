//! The abstract state of a list with a cursor, and its transitions.
//!
//! Every operation of [`crate::dll::DlList`] is specified as one of the
//! transitions below applied to the list's view.

use vstd::prelude::*;

verus! {

/// The values of a list from head to tail, and the position of its cursor.
pub struct ListState<T> {
    pub items: Seq<T>,
    pub cursor: Option<int>,
}

impl<T> ListState<T> {
    /// The list without values; its cursor is unset.
    pub open spec fn empty() -> Self {
        ListState { items: Seq::empty(), cursor: None }
    }

    /// The cursor is unset exactly when the list is empty, and otherwise
    /// designates one of the values.
    pub open spec fn well_formed(self) -> bool {
        match self.cursor {
            None => self.items.len() == 0,
            Some(c) => 0 <= c < self.items.len(),
        }
    }

    pub open spec fn len(self) -> nat {
        self.items.len()
    }

    /// The first value, if any.
    pub open spec fn head(self) -> Option<T> {
        if self.items.len() == 0 {
            None
        } else {
            Some(self.items.first())
        }
    }

    /// The last value, if any.
    pub open spec fn tail(self) -> Option<T> {
        if self.items.len() == 0 {
            None
        } else {
            Some(self.items.last())
        }
    }

    /// The value under the cursor, if the cursor is set.
    pub open spec fn current(self) -> Option<T> {
        match self.cursor {
            None => None,
            Some(c) => Some(self.items[c]),
        }
    }

    /// Appends `value`. The cursor of an empty list is placed on the new
    /// value; otherwise it stays where it is.
    pub open spec fn enqueue(self, value: T) -> Self {
        ListState {
            items: self.items.push(value),
            cursor: if self.items.len() == 0 {
                Some(0)
            } else {
                self.cursor
            },
        }
    }

    /// Where a cursor at `c` stands once position `k` of `len` values is gone:
    /// it follows its value if that survives; otherwise it takes the removed
    /// value's successor, or the predecessor when there is no successor, and
    /// is unset when the list became empty.
    pub open spec fn cursor_after_removal(c: int, k: int, len: int) -> Option<int> {
        if c < k {
            Some(c)
        } else if c > k {
            Some(c - 1)
        } else if k + 1 < len {
            Some(k)
        } else if k > 0 {
            Some(k - 1)
        } else {
            None
        }
    }

    /// Removes the value at position `k` and repairs the cursor.
    pub open spec fn remove_at(self, k: int) -> Self {
        ListState {
            items: self.items.remove(k),
            cursor: match self.cursor {
                None => None,
                Some(c) => Self::cursor_after_removal(c, k, self.items.len() as int),
            },
        }
    }

    /// Removes the first value; an empty list is left as it is.
    pub open spec fn remove_head(self) -> Self {
        if self.items.len() == 0 {
            self
        } else {
            self.remove_at(0)
        }
    }

    /// Removes the last value; an empty list is left as it is.
    pub open spec fn remove_tail(self) -> Self {
        if self.items.len() == 0 {
            self
        } else {
            self.remove_at(self.items.len() - 1)
        }
    }

    /// Removes the value under the cursor; with the cursor unset the list is
    /// left as it is.
    pub open spec fn remove_current(self) -> Self {
        match self.cursor {
            None => self,
            Some(c) => self.remove_at(c),
        }
    }

    /// Whether a value follows the one under the cursor.
    pub open spec fn can_move_forward(self) -> bool {
        match self.cursor {
            None => false,
            Some(c) => c + 1 < self.items.len(),
        }
    }

    /// Whether a value precedes the one under the cursor.
    pub open spec fn can_move_backward(self) -> bool {
        match self.cursor {
            None => false,
            Some(c) => c > 0,
        }
    }

    /// Advances the cursor by one value where one follows.
    pub open spec fn move_forward(self) -> Self {
        match self.cursor {
            Some(c) if c + 1 < self.items.len() => ListState { cursor: Some(c + 1), ..self },
            _ => self,
        }
    }

    /// Moves the cursor back by one value where one precedes.
    pub open spec fn move_backward(self) -> Self {
        match self.cursor {
            Some(c) if c > 0 => ListState { cursor: Some(c - 1), ..self },
            _ => self,
        }
    }
}

} // verus!
