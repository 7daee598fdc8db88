//! What the rules of the grammar keep of the cursor, and where the nodes
//! that they build lie: the statements that the contracts of the parsing
//! functions share.

use crate::ast::{Position, Tree};
use crate::cursor::Cursor;
use crate::grammar::{is_suffix, Parsed, ParsedMany};
use vstd::prelude::*;

verus! {

/// `after` lies no more than `n` lines, columns and characters behind `c`,
/// or `c` is locked.
pub open spec fn reach(c: Cursor, after: Cursor, n: int) -> bool {
    c.locked || {
        &&& after.current.line <= c.current.line + n
        &&& after.current.column <= c.current.column + n
        &&& after.current.offset <= c.current.offset + n
    }
}

/// The rule left the open transactions and the lock as they were; a locked
/// cursor it left untouched; and what it left over is the rest of the input,
/// with the cursor no further than what it consumed.
pub open spec fn steady<T>(c: Cursor, s: Seq<char>, p: Parsed<T>) -> bool {
    &&& p.cursor.saved == c.saved
    &&& p.cursor.locked == c.locked
    &&& c.locked ==> p.cursor == c
    &&& p.ok() ==> is_suffix(p.rest(), s) && reach(c, p.cursor, s.len() - p.rest().len())
}

/// As [`steady`], and a rule that failed left the live position where it was.
pub open spec fn atomic<T>(c: Cursor, s: Seq<char>, p: Parsed<T>) -> bool {
    &&& steady(c, s, p)
    &&& !p.ok() ==> p.cursor.current == c.current
}

/// As [`steady`], for a repetition.
pub open spec fn steady_many(c: Cursor, s: Seq<char>, p: ParsedMany) -> bool {
    &&& p.cursor.saved == c.saved
    &&& p.cursor.locked == c.locked
    &&& c.locked ==> p.cursor == c
    &&& is_suffix(p.rest, s)
    &&& reach(c, p.cursor, s.len() - p.rest.len())
}

/// The rule moved an ordered, unlocked cursor forward or not at all, and
/// left it ordered.
pub open spec fn forward(c: Cursor, after: Cursor) -> bool {
    c.ordered() && !c.locked ==> after.ordered() && c.current.le(after.current)
}

/// `node` is well ranged and lies between `from` and `to`.
pub open spec fn within(node: Tree, from: Position, to: Position) -> bool {
    &&& node.well_ranged()
    &&& from.le(node.elm.range.begin)
    &&& node.elm.range.end.le(to)
}

/// Every one of `nodes` is well ranged and lies between `from` and `to`.
pub open spec fn all_within(nodes: Seq<Tree>, from: Position, to: Position) -> bool {
    forall|i: int| 0 <= i < nodes.len() ==> within(#[trigger] nodes[i], from, to)
}

/// Started from an ordered, unlocked cursor, the rule moved it forward, and
/// the node it built lies between the anchor it started from and the live
/// position it left.
pub open spec fn placed(c: Cursor, p: Parsed<Tree>) -> bool {
    &&& forward(c, p.cursor)
    &&& c.ordered() && !c.locked && p.ok() ==> within(p.value(), c.anchor(), p.cursor.current)
}

/// As [`placed`], for the nodes of a repetition.
pub open spec fn placed_many(c: Cursor, p: ParsedMany) -> bool {
    &&& forward(c, p.cursor)
    &&& c.ordered() && !c.locked ==> all_within(p.nodes, c.anchor(), p.cursor.current)
}

/// Behind a match on an unlocked cursor the last advance went over no line ending.
pub open spec fn ends_in_line<T>(c: Cursor, p: Parsed<T>) -> bool {
    p.ok() && !c.locked ==> !p.cursor.just_broke
}

/// A rule that failed left the cursor untouched.
pub open spec fn fails_clean<T>(c: Cursor, p: Parsed<T>) -> bool {
    !p.ok() ==> p.cursor == c
}

/// The last advance of `after` went over no line ending where that of the
/// unlocked `c` went over none.
pub open spec fn stays_in_line(c: Cursor, after: Cursor) -> bool {
    !c.locked && !c.just_broke ==> !after.just_broke
}

/// A match left less input than there was.
pub open spec fn consuming<T>(s: Seq<char>, p: Parsed<T>) -> bool {
    p.ok() ==> p.rest().len() < s.len()
}

/// What holds of every rule that builds a node in a transaction of its own.
pub open spec fn sound(c: Cursor, s: Seq<char>, p: Parsed<Tree>) -> bool {
    &&& atomic(c, s, p)
    &&& placed(c, p)
    &&& consuming(s, p)
}

/// What holds of every repetition of rules that build nodes.
pub open spec fn sound_many(c: Cursor, s: Seq<char>, p: ParsedMany) -> bool {
    &&& steady_many(c, s, p)
    &&& placed_many(c, p)
}

/// One more node behind the nodes gathered so far, with the live position
/// further on.
pub proof fn lemma_gather(nodes: Seq<Tree>, node: Tree, from: Position, mid: Position, to: Position)
    requires
        all_within(nodes, from, mid),
        within(node, from, to),
        mid.le(to),
    ensures
        all_within(nodes.push(node), from, to),
{
    assert forall|i: int| 0 <= i < nodes.push(node).len() implies within(
        #[trigger] nodes.push(node)[i],
        from,
        to,
    ) by {
        if i < nodes.len() {
            assert(within(nodes[i], from, mid));
        }
    }
}

} // verus!
