//! The model of the parser's cursor: the live position, the position before
//! the last advance, the saved positions of the open transactions, and the
//! two flags.

use crate::ast::{Position, Span};
use vstd::prelude::*;

verus! {

/// Model of the cursor and its transactions.
pub struct Cursor {
    /// The live position.
    pub current: Position,
    /// The live position as it was just before the last advance.
    pub previous: Position,
    /// The positions saved by the open transactions, the innermost last.
    pub saved: Seq<Position>,
    /// While set, advances and transactions have no effect.
    pub locked: bool,
    /// Whether the last advance went over a line ending.
    pub just_broke: bool,
}

impl Cursor {
    /// The cursor of a fresh parser.
    pub open spec fn start() -> Cursor {
        Cursor {
            current: Position::origin(),
            previous: Position::origin(),
            saved: Seq::empty(),
            locked: false,
            just_broke: false,
        }
    }

    /// Opens a transaction: saves the live position.
    pub open spec fn begin(self) -> Cursor {
        if self.locked {
            self
        } else {
            Cursor { saved: self.saved.push(self.current), ..self }
        }
    }

    /// Closes the innermost transaction and keeps what was consumed.
    pub open spec fn commit(self) -> Cursor {
        if self.locked || self.saved.len() == 0 {
            self
        } else {
            Cursor { saved: self.saved.drop_last(), ..self }
        }
    }

    /// Closes the innermost transaction and goes back to where it began.
    pub open spec fn rollback(self) -> Cursor {
        if self.locked || self.saved.len() == 0 {
            self
        } else {
            Cursor { current: self.saved.last(), saved: self.saved.drop_last(), ..self }
        }
    }

    /// Closes the innermost transaction after an attempt: commit where it
    /// succeeded, rollback where it failed.
    pub open spec fn close(self, success: bool) -> Cursor {
        if success {
            self.commit()
        } else {
            self.rollback()
        }
    }

    /// The same cursor with the lock set as given.
    pub open spec fn with_lock(self, locked: bool) -> Cursor {
        Cursor { locked, ..self }
    }

    /// Moves the live position to `to` and remembers where it was.
    pub open spec fn moved(self, to: Position, over_break: bool) -> Cursor {
        if self.locked {
            self
        } else {
            Cursor { previous: self.current, current: to, just_broke: over_break, ..self }
        }
    }

    /// One advance of the offset alone by `n`.
    pub open spec fn skip_offset(self, n: nat) -> Cursor {
        self.moved(self.current.forward(n), false)
    }

    /// One advance over `n` lines of one character each.
    pub open spec fn skip_lines(self, n: nat) -> Cursor {
        self.moved(self.current.down(n), true)
    }

    /// One advance over `n` characters of the line.
    pub open spec fn skip_columns(self, n: nat) -> Cursor {
        self.moved(self.current.right(n), false)
    }

    /// `n` advances over one character each.
    pub open spec fn past_chars(self, n: nat) -> Cursor {
        if self.locked || n == 0 {
            self
        } else {
            Cursor {
                previous: self.current.right((n - 1) as nat),
                current: self.current.right(n),
                just_broke: false,
                ..self
            }
        }
    }

    /// One advance over a line ending of `len` characters.
    pub open spec fn past_line_ending(self, len: nat) -> Cursor {
        self.moved(
            Position { line: self.current.line + 1, column: 1, offset: self.current.offset + len },
            true,
        )
    }

    /// Where the innermost open transaction began; the origin where none is open.
    pub open spec fn anchor(self) -> Position {
        if self.saved.len() > 0 {
            self.saved.last()
        } else {
            Position::origin()
        }
    }

    /// From the anchor to the live position.
    pub open spec fn range(self) -> Span {
        Span { begin: self.anchor(), end: self.current }
    }

    /// From the anchor to the live position, or to the position in front of
    /// the line ending where the last advance went over one.
    pub open spec fn range_before_break(self) -> Span {
        Span {
            begin: self.anchor(),
            end: if self.just_broke {
                self.previous
            } else {
                self.current
            },
        }
    }

    /// Whether `n` more characters can be consumed without a position
    /// leaving the machine's range.
    pub open spec fn has_room(self, n: nat) -> bool {
        self.locked || {
            &&& self.current.line + n <= u32::MAX
            &&& self.current.column + n <= u32::MAX
            &&& self.current.offset + n <= u32::MAX
        }
    }

    /// Whether one advance over `n` characters of the line stays within the
    /// machine's range.
    pub open spec fn has_room_for_chars(self, n: nat) -> bool {
        self.locked || {
            &&& self.current.column + n <= u32::MAX
            &&& self.current.offset + n <= u32::MAX
        }
    }

    /// Whether one advance over a line ending of `len` characters stays
    /// within the machine's range.
    pub open spec fn has_room_for_line_ending(self, len: nat) -> bool {
        self.locked || {
            &&& self.current.line + 1 <= u32::MAX
            &&& self.current.offset + len <= u32::MAX
        }
    }

    /// The saved positions follow one another, the live position follows the
    /// last of them, and none lies before the origin.
    pub open spec fn ordered(self) -> bool {
        &&& Position::origin().le(self.current)
        &&& forall|i: int| 0 <= i < self.saved.len() ==> Position::origin().le(#[trigger] self.saved[i])
        &&& forall|i: int, j: int|
            0 <= i <= j < self.saved.len() ==> (#[trigger] self.saved[i]).le(#[trigger] self.saved[j])
        &&& forall|i: int| 0 <= i < self.saved.len() ==> (#[trigger] self.saved[i]).le(self.current)
    }
}

/// Opening a transaction and closing it at once, either way, changes nothing.
pub proof fn lemma_begin_then_close(c: Cursor, success: bool)
    ensures
        c.begin().close(success) == c,
        c.begin().rollback() == c,
        c.begin().commit() == c,
{
    assert(c.saved.push(c.current).drop_last() =~= c.saved);
}

/// What opening a transaction changes and what it keeps.
pub proof fn lemma_begin(c: Cursor)
    ensures
        c.begin().current == c.current,
        c.begin().previous == c.previous,
        c.begin().just_broke == c.just_broke,
        c.begin().locked == c.locked,
        c.locked ==> c.begin() == c,
        !c.locked ==> c.begin().anchor() == c.current,
        c.ordered() ==> c.begin().ordered() && c.anchor().le(c.current),
{
}

/// What closing a transaction gives, either way, where `x` is the cursor
/// that a rule left which was started on `c.begin()` and kept the open
/// transactions and the lock.
pub proof fn lemma_close(c: Cursor, x: Cursor, success: bool)
    requires
        x.saved == c.begin().saved,
        x.locked == c.locked,
        c.locked ==> x == c,
    ensures
        x.close(success).saved == c.saved,
        x.close(success).locked == c.locked,
        x.close(success).previous == x.previous,
        x.close(success).just_broke == x.just_broke,
        c.locked ==> x.close(success) == c,
        success ==> x.close(success).current == x.current,
        !success && !c.locked ==> x.close(success).current == c.current,
        c.ordered() && !c.locked && x.ordered() ==> x.close(success).ordered() && c.current.le(
            x.close(success).current,
        ),
{
    assert(c.saved.push(c.current).drop_last() =~= c.saved);
    if !c.locked {
        assert(x.saved.last() == c.current);
        if c.ordered() && x.ordered() {
            assert(x.saved[x.saved.len() - 1].le(x.current));
            let y = x.close(success);
            assert forall|i: int| 0 <= i < y.saved.len() implies (#[trigger] y.saved[i]).le(
                y.current,
            ) by {
                assert(y.saved[i] == c.saved[i]);
                assert(c.saved[i].le(c.current));
            }
        }
    }
}

} // verus!
