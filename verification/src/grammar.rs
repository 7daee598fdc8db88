//! The grammar, as functions from a cursor and the remaining input to the
//! cursor afterwards and, where the rule matches, the input left over and the
//! value recognised.
//!
//! Alternatives are tried in order and the first match wins; repetitions are
//! greedy. A rule that runs in a transaction of its own leaves the live
//! position where it found it when it fails.

use crate::ast::{break_text, ASTMetaData, ASTType, Element, Position, Span, Tree};
use crate::cursor::Cursor;
use vstd::prelude::*;

verus! {

/// A C0 control code or DEL.
pub open spec fn is_control(c: char) -> bool {
    (c as u32) <= 0x1F || (c as u32) == 0x7F
}

/// Neither a control code nor the space.
pub open spec fn is_printable(c: char) -> bool {
    !is_control(c) && c != ' '
}

/// Tab, space, or printable: what a line is made of.
pub open spec fn is_non_break(c: char) -> bool {
    c == '\t' || c == ' ' || is_printable(c)
}

/// One of the ASCII punctuation symbols.
pub open spec fn is_special(c: char) -> bool {
    ||| c == '!'
    ||| c == '"'
    ||| c == '#'
    ||| c == '$'
    ||| c == '%'
    ||| c == '&'
    ||| c == '\''
    ||| c == '('
    ||| c == ')'
    ||| c == '*'
    ||| c == '+'
    ||| c == ','
    ||| c == '-'
    ||| c == '.'
    ||| c == '/'
    ||| c == ':'
    ||| c == ';'
    ||| c == '<'
    ||| c == '='
    ||| c == '>'
    ||| c == '?'
    ||| c == '@'
    ||| c == '['
    ||| c == '\\'
    ||| c == ']'
    ||| c == '^'
    ||| c == '_'
    ||| c == '`'
    ||| c == '{'
    ||| c == '|'
    ||| c == '}'
    ||| c == '~'
}

/// The classes of characters that the rules ask for.
#[derive(Debug, Clone, Copy, PartialEq, Eq, Structural)]
pub enum CharClass {
    /// The one character given.
    Only(char),
    /// Space or line feed.
    Blank,
    /// See [`is_printable`].
    Printable,
    /// See [`is_non_break`].
    NonBreak,
    /// See [`is_special`].
    Special,
    /// Non-break and not special: plain prose.
    Plain,
}

impl CharClass {
    /// Whether `c` belongs to the class.
    pub open spec fn has(self, c: char) -> bool {
        match self {
            CharClass::Only(x) => c == x,
            CharClass::Blank => c == ' ' || c == '\n',
            CharClass::Printable => is_printable(c),
            CharClass::NonBreak => is_non_break(c),
            CharClass::Special => is_special(c),
            CharClass::Plain => is_non_break(c) && !is_special(c),
        }
    }
}

/// The number of characters at the front of `s` that belong to `class`.
pub open spec fn run_len(s: Seq<char>, class: CharClass) -> nat
    decreases s.len(),
{
    if s.len() > 0 && class.has(s[0]) {
        1 + run_len(s.skip(1), class)
    } else {
        0
    }
}

/// A run is no longer than the input, and made of characters of the class.
pub proof fn lemma_run_len_bound(s: Seq<char>, class: CharClass)
    ensures
        run_len(s, class) <= s.len(),
        forall|i: int| 0 <= i < run_len(s, class) ==> class.has(#[trigger] s[i]),
        run_len(s, class) < s.len() ==> !class.has(s[run_len(s, class) as int]),
    decreases s.len(),
{
    if s.len() > 0 && class.has(s[0]) {
        lemma_run_len_bound(s.skip(1), class);
        assert forall|i: int| 0 <= i < run_len(s, class) implies class.has(#[trigger] s[i]) by {
            if i > 0 {
                assert(s[i] == s.skip(1)[i - 1]);
            }
        }
        if run_len(s, class) < s.len() {
            assert(s[run_len(s, class) as int] == s.skip(1)[run_len(s.skip(1), class) as int]);
        }
    }
}

/// The length of the line ending at the front of `s`: 1 for a line feed, 2
/// for a carriage return and a line feed, 0 where there is none.
pub open spec fn line_ending_len(s: Seq<char>) -> nat {
    if s.len() >= 1 && s[0] == '\n' {
        1
    } else if s.len() >= 2 && s[0] == '\r' && s[1] == '\n' {
        2
    } else {
        0
    }
}

/// `rest` is what remains of `s` after some of its front was consumed.
pub open spec fn is_suffix(rest: Seq<char>, s: Seq<char>) -> bool {
    rest.len() <= s.len() && rest =~= s.skip(s.len() - rest.len())
}

/// What remains of what remains of `s` remains of `s`.
pub proof fn lemma_suffix_of_suffix(inner: Seq<char>, middle: Seq<char>, s: Seq<char>)
    requires
        is_suffix(inner, middle),
        is_suffix(middle, s),
    ensures
        is_suffix(inner, s),
{
    assert(s.skip(s.len() - middle.len()).skip(middle.len() - inner.len()) =~= s.skip(
        s.len() - inner.len(),
    ));
}

/// The front of `s` that was consumed to leave `rest`.
pub open spec fn consumed(s: Seq<char>, rest: Seq<char>) -> Seq<char> {
    s.take(s.len() - rest.len())
}

/// What a rule gives: the cursor afterwards and, on a match, the input left
/// over and the value.
pub struct Parsed<T> {
    pub cursor: Cursor,
    pub out: Option<(Seq<char>, T)>,
}

impl<T> Parsed<T> {
    /// Whether the rule matched.
    pub open spec fn ok(self) -> bool {
        self.out is Some
    }

    /// The input left over by a match.
    pub open spec fn rest(self) -> Seq<char> {
        let (rest, _) = self.out.unwrap();
        rest
    }

    /// The value of a match.
    pub open spec fn value(self) -> T {
        let (_, value) = self.out.unwrap();
        value
    }
}

/// A match.
pub open spec fn hit<T>(cursor: Cursor, rest: Seq<char>, value: T) -> Parsed<T> {
    Parsed { cursor, out: Some((rest, value)) }
}

/// No match.
pub open spec fn miss<T>(cursor: Cursor) -> Parsed<T> {
    Parsed { cursor, out: None }
}

/// The outcome of a rule that ran in a transaction: committed on a match,
/// rolled back otherwise.
pub open spec fn settled<T>(p: Parsed<T>) -> Parsed<T> {
    Parsed { cursor: p.cursor.close(p.ok()), out: p.out }
}

/// What a repetition gives: the cursor afterwards, the input left over and
/// the nodes gathered, in order.
pub struct ParsedMany {
    pub cursor: Cursor,
    pub rest: Seq<char>,
    pub nodes: Seq<Tree>,
}

/// `first` in front of what the rest of the repetition gave.
pub open spec fn after(first: Tree, more: ParsedMany) -> ParsedMany {
    ParsedMany { cursor: more.cursor, rest: more.rest, nodes: seq![first] + more.nodes }
}

/// One character of `class`.
pub open spec fn one(c: Cursor, s: Seq<char>, class: CharClass) -> Parsed<char> {
    if s.len() > 0 && class.has(s[0]) {
        hit(c.past_chars(1), s.skip(1), s[0])
    } else {
        miss(c)
    }
}

/// One character of `class`, as text.
pub open spec fn one_text(c: Cursor, s: Seq<char>, class: CharClass) -> Parsed<Seq<char>> {
    if s.len() > 0 && class.has(s[0]) {
        hit(c.past_chars(1), s.skip(1), s.take(1))
    } else {
        miss(c)
    }
}

/// As many characters of `class` as there are, up to `max`; a match where
/// they are at least `min`. What was consumed stays consumed either way.
pub open spec fn some_of(c: Cursor, s: Seq<char>, class: CharClass, min: nat, max: nat) -> Parsed<
    Seq<char>,
> {
    let n = if run_len(s, class) <= max {
        run_len(s, class)
    } else {
        max
    };
    if n >= min {
        hit(c.past_chars(n), s.skip(n as int), s.take(n as int))
    } else {
        miss(c.past_chars(n))
    }
}

/// All the characters of `class` at the front; a match where there is one.
pub open spec fn run(c: Cursor, s: Seq<char>, class: CharClass) -> Parsed<Seq<char>> {
    let n = run_len(s, class);
    if n >= 1 {
        hit(c.past_chars(n), s.skip(n as int), s.take(n as int))
    } else {
        miss(c)
    }
}

/// One line ending.
pub open spec fn line_break(c: Cursor, s: Seq<char>) -> Parsed<Seq<char>> {
    let n = line_ending_len(s);
    if n > 0 {
        hit(c.past_line_ending(n), s.skip(n as int), s.take(n as int))
    } else {
        miss(c)
    }
}

/// Position arithmetic. A fresh cursor stands at line 1, column 1, offset 0,
/// and one character takes it to line 1, column 2, offset 1. On any
/// unlocked cursor, one character of any class keeps the line and adds one
/// to the column and to the offset; one line ending leads to column 1 of
/// the next line and adds its length to the offset.
pub proof fn lemma_position_arithmetic(c: Cursor, s: Seq<char>, class: CharClass)
    requires
        !c.locked,
    ensures
        Cursor::start().current == (Position { line: 1, column: 1, offset: 0 }),
        one(Cursor::start(), s, class).ok() ==> one(Cursor::start(), s, class).cursor.current == (
        Position { line: 1, column: 2, offset: 1 }),
        one(c, s, class).ok() ==> one(c, s, class).cursor.current == (Position {
            line: c.current.line,
            column: c.current.column + 1,
            offset: c.current.offset + 1,
        }),
        line_break(c, s).ok() ==> line_break(c, s).cursor.current == (Position {
            line: c.current.line + 1,
            column: 1,
            offset: c.current.offset + line_ending_len(s),
        }),
        line_break(c, s).ok() ==> line_ending_len(s) == consumed(s, line_break(c, s).rest()).len(),
{
}

/// A node of `kind` for a break that was read from `raw`, spanning `range`.
/// Its value is a line feed, whatever the line endings were.
pub open spec fn break_node(kind: ASTType, raw: Seq<char>, range: Span) -> Tree {
    Tree::leaf(
        Element { kind, meta: ASTMetaData::Nil, value: break_text(), raw_value: raw, range },
    )
}

/// A text node of the given content, spanning `range`.
pub open spec fn text_node(value: Seq<char>, range: Span) -> Tree {
    Tree::leaf(
        Element { kind: ASTType::Text, meta: ASTMetaData::Nil, value, raw_value: value, range },
    )
}

/// One line ending, as a soft break node.
pub open spec fn soft_break_node(c: Cursor, s: Seq<char>) -> Parsed<Tree> {
    let p = line_break(c, s);
    match p.out {
        Some((rest, ending)) => hit(
            p.cursor,
            rest,
            break_node(ASTType::SoftBreak, ending, p.cursor.range()),
        ),
        None => miss(p.cursor),
    }
}

/// What consecutive line endings give: the cursor behind them, the input
/// left over and their number.
pub struct Breaks {
    pub cursor: Cursor,
    pub rest: Seq<char>,
    pub count: nat,
}

/// The line endings at the front of `s`, `max` of them at most.
pub open spec fn breaks(c: Cursor, s: Seq<char>, max: nat) -> Breaks
    decreases max,
{
    let n = line_ending_len(s);
    if max > 0 && n > 0 {
        let more = breaks(c.past_line_ending(n), s.skip(n as int), (max - 1) as nat);
        Breaks { cursor: more.cursor, rest: more.rest, count: more.count + 1 }
    } else {
        Breaks { cursor: c, rest: s, count: 0 }
    }
}

/// Line endings are counted from the front, they keep the open transactions
/// and the lock, and a locked cursor stays as it is.
pub proof fn lemma_breaks(c: Cursor, s: Seq<char>, max: nat)
    ensures
        breaks(c, s, max).count <= max,
        breaks(c, s, max).count >= 1 <==> (max >= 1 && line_ending_len(s) > 0),
        breaks(c, s, max).count >= 2 <==> (max >= 2 && line_ending_len(s) > 0 && line_ending_len(
            s.skip(line_ending_len(s) as int),
        ) > 0),
        breaks(c, s, max).cursor.saved == c.saved,
        breaks(c, s, max).cursor.locked == c.locked,
        c.locked ==> breaks(c, s, max).cursor == c,
        is_suffix(breaks(c, s, max).rest, s),
    decreases max,
{
    let n = line_ending_len(s);
    if max > 0 && n > 0 {
        let behind = s.skip(n as int);
        lemma_breaks(c.past_line_ending(n), behind, (max - 1) as nat);
        lemma_suffix_of_suffix(breaks(c, s, max).rest, behind, s);
    }
}

/// The most line endings that one hard break takes in.
pub open spec fn hard_break_limit() -> nat {
    9999
}

/// Two or more line endings. One line ending alone stays consumed.
pub open spec fn hard_break(c: Cursor, s: Seq<char>) -> Parsed<Seq<char>> {
    let b = breaks(c, s, hard_break_limit());
    if b.count >= 2 {
        hit(b.cursor, b.rest, consumed(s, b.rest))
    } else {
        miss(b.cursor)
    }
}

/// Two or more line endings, as a hard break node.
pub open spec fn hard_break_node(c: Cursor, s: Seq<char>) -> Parsed<Tree> {
    let p = hard_break(c, s);
    match p.out {
        Some((rest, endings)) => hit(
            p.cursor,
            rest,
            break_node(ASTType::HardBreak, endings, p.cursor.range()),
        ),
        None => miss(p.cursor),
    }
}

/// One line ending, or the end of the input.
pub open spec fn break_or_eof(c: Cursor, s: Seq<char>) -> Parsed<Seq<char>> {
    if line_ending_len(s) > 0 {
        line_break(c, s)
    } else if s.len() == 0 {
        hit(c, s, Seq::empty())
    } else {
        miss(c)
    }
}

/// One line ending or one non-break character.
pub open spec fn any_char(c: Cursor, s: Seq<char>) -> Parsed<Seq<char>> {
    if line_ending_len(s) > 0 {
        line_break(c, s)
    } else {
        one_text(c, s, CharClass::NonBreak)
    }
}

/// Where a run of line endings and non-break characters ends: the cursor
/// there and the input left over.
pub open spec fn text_end(c: Cursor, s: Seq<char>) -> ParsedMany
    decreases s.len(),
{
    let p = any_char(c, s);
    if p.ok() && p.rest().len() < s.len() {
        text_end(p.cursor, p.rest())
    } else {
        ParsedMany { cursor: c, rest: s, nodes: Seq::empty() }
    }
}

/// A run of line endings and non-break characters, one at least.
pub open spec fn string(c: Cursor, s: Seq<char>) -> Parsed<Seq<char>> {
    let end = text_end(c, s);
    if end.rest.len() < s.len() {
        hit(end.cursor, end.rest, consumed(s, end.rest))
    } else {
        miss(c)
    }
}

/// A run of plain characters as a text node. Meant to run in a transaction:
/// the node spans from where the transaction began.
pub open spec fn text_run(c: Cursor, s: Seq<char>) -> Parsed<Tree> {
    let p = run(c, s, CharClass::Plain);
    match p.out {
        Some((rest, value)) => hit(p.cursor, rest, text_node(value, p.cursor.range())),
        None => miss(p.cursor),
    }
}

/// One special character as a text node.
pub open spec fn symbol(c: Cursor, s: Seq<char>) -> Parsed<Tree> {
    let p = one(c, s, CharClass::Special);
    match p.out {
        Some((rest, ch)) => hit(p.cursor, rest, text_node(seq![ch], p.cursor.range())),
        None => miss(p.cursor),
    }
}

/// One asterisk as a text node.
pub open spec fn asterisk(c: Cursor, s: Seq<char>) -> Parsed<Tree> {
    let p = one(c, s, CharClass::Only('*'));
    match p.out {
        Some((rest, ch)) => hit(p.cursor, rest, text_node(seq![ch], p.cursor.range())),
        None => miss(p.cursor),
    }
}

/// A space or a line ending is next: no emphasis delimiter may stand in front of it.
pub open spec fn blank_ahead(s: Seq<char>) -> bool {
    line_ending_len(s) > 0 || (s.len() > 0 && s[0] == ' ')
}

/// `t` ends in a space or in a line ending: no emphasis delimiter may
/// stand behind it.
pub open spec fn blank_behind(t: Seq<char>) -> bool {
    t.len() > 0 && (t.last() == ' ' || t.last() == '\n')
}

/// A text run or an emphasis, each in a transaction of its own.
pub open spec fn inline_syntax(c: Cursor, s: Seq<char>) -> Parsed<Tree>
    decreases s.len(), 2nat,
{
    let first = settled(text_run(c.begin(), s));
    if first.ok() {
        first
    } else {
        settled(emphasis(first.cursor.begin(), s))
    }
}

/// An emphasis: an asterisk with no space or line ending behind it, one or
/// more inline constructs or soft breaks, and an asterisk with no space or
/// line ending in front of it. It runs in a transaction of its own, and its
/// node spans from where the enclosing one began.
pub open spec fn emphasis(c: Cursor, s: Seq<char>) -> Parsed<Tree>
    decreases s.len(), 1nat,
{
    let opened = one(c.begin(), s, CharClass::Only('*'));
    if !opened.ok() || blank_ahead(s.skip(1)) {
        miss(opened.cursor.rollback())
    } else {
        let body = emphasis_body(opened.cursor, s.skip(1));
        let closed = one(body.cursor, body.rest, CharClass::Only('*'));
        if body.nodes.len() == 0 || blank_behind(consumed(s.skip(1), body.rest)) || !closed.ok() {
            miss(body.cursor.rollback())
        } else {
            let done = closed.cursor.commit();
            let rest = body.rest.skip(1);
            hit(
                done,
                rest,
                Tree {
                    elm: Element {
                        kind: ASTType::Emphasis,
                        meta: ASTMetaData::Nil,
                        value: Seq::empty(),
                        raw_value: consumed(s, rest),
                        range: done.range(),
                    },
                    children: body.nodes,
                },
            )
        }
    }
}

/// One item of an emphasis: an inline construct or a soft break, each in a
/// transaction of its own.
pub open spec fn emphasis_item(c: Cursor, s: Seq<char>) -> Parsed<Tree>
    decreases s.len(), 3nat,
{
    let first = settled(inline_syntax(c.begin(), s));
    if first.ok() {
        first
    } else {
        settled(soft_break_node(first.cursor.begin(), s))
    }
}

/// The items of an emphasis, as many as there are.
pub open spec fn emphasis_body(c: Cursor, s: Seq<char>) -> ParsedMany
    decreases s.len(), 4nat,
{
    let item = emphasis_item(c, s);
    if item.ok() && item.rest().len() < s.len() {
        after(item.value(), emphasis_body(item.cursor, item.rest()))
    } else {
        ParsedMany { cursor: item.cursor, rest: s, nodes: Seq::empty() }
    }
}

/// An inline construct: a text run or an emphasis, else one special
/// character as text; each alternative in a transaction of its own.
#[verifier::opaque]
pub open spec fn inline(c: Cursor, s: Seq<char>) -> Parsed<Tree> {
    let first = settled(inline_syntax(c.begin(), s));
    if first.ok() {
        first
    } else {
        settled(symbol(first.cursor.begin(), s))
    }
}

/// Inline constructs, as many as there are.
pub open spec fn inlines(c: Cursor, s: Seq<char>) -> ParsedMany
    decreases s.len(),
{
    let item = inline(c, s);
    if item.ok() && item.rest().len() < s.len() {
        after(item.value(), inlines(item.cursor, item.rest()))
    } else {
        ParsedMany { cursor: item.cursor, rest: s, nodes: Seq::empty() }
    }
}

/// The heading level for a number of pound signs.
pub open spec fn level_of(pounds: nat) -> ASTMetaData {
    if pounds == 1 {
        ASTMetaData::H1
    } else if pounds == 2 {
        ASTMetaData::H2
    } else if pounds == 3 {
        ASTMetaData::H3
    } else if pounds == 4 {
        ASTMetaData::H4
    } else if pounds == 5 {
        ASTMetaData::H5
    } else if pounds == 6 {
        ASTMetaData::H6
    } else {
        ASTMetaData::Nil
    }
}

/// What opens a header: up to three spaces, one to six pound signs, one or
/// more spaces. The value is the number of pound signs. What was consumed
/// stays consumed where the rule fails.
pub open spec fn header_prefix(c: Cursor, s: Seq<char>) -> Parsed<nat> {
    let indent = some_of(c, s, CharClass::Only(' '), 0, 3);
    let pounds = some_of(indent.cursor, indent.rest(), CharClass::Only('#'), 1, 6);
    if !pounds.ok() {
        miss(pounds.cursor)
    } else {
        let gap = run(pounds.cursor, pounds.rest(), CharClass::Only(' '));
        if !gap.ok() {
            miss(gap.cursor)
        } else {
            hit(gap.cursor, gap.rest(), pounds.value().len())
        }
    }
}

/// Whether `s` opens a header.
pub open spec fn starts_header(s: Seq<char>) -> bool {
    header_prefix(Cursor::start(), s).ok()
}

/// A header: its prefix, the text up to the end of the line parsed as inline
/// constructs, pound signs if any follow, and then a line ending or the end
/// of the input, which is not consumed. It runs in a transaction of its own,
/// and its node spans from where the enclosing one began.
#[verifier::opaque]
pub open spec fn headers(c: Cursor, s: Seq<char>) -> Parsed<Tree> {
    let prefix = header_prefix(c.begin(), s);
    if !prefix.ok() {
        miss(prefix.cursor.rollback())
    } else {
        let line = prefix.rest();
        let n = run_len(line, CharClass::NonBreak);
        if n == 0 {
            miss(prefix.cursor.rollback())
        } else {
            let kids = inlines(prefix.cursor, line.take(n as int));
            let tail = some_of(kids.cursor, line.skip(n as int), CharClass::Only('#'), 0, line.len());
            let rest = tail.rest();
            if line_ending_len(rest) > 0 || rest.len() == 0 {
                let done = tail.cursor.commit();
                hit(
                    done,
                    rest,
                    Tree {
                        elm: Element {
                            kind: ASTType::Headers,
                            meta: level_of(prefix.value()),
                            value: Seq::empty(),
                            raw_value: consumed(s, rest),
                            range: done.range_before_break(),
                        },
                        children: kids.nodes,
                    },
                )
            } else {
                miss(tail.cursor.rollback())
            }
        }
    }
}

/// Whether the paragraph goes on behind a line that ends at the front of
/// `s`: a single line ending follows, and behind it a line that does not
/// open a header.
pub open spec fn paragraph_continues(s: Seq<char>) -> bool {
    let e = line_ending_len(s);
    let next = s.skip(e as int);
    e > 0 && run_len(next, CharClass::NonBreak) > 0 && !starts_header(next)
}

/// The length of the paragraph text at the front of `s`: its lines with the
/// line endings between them, without the line ending behind the last.
pub open spec fn block_text_len(s: Seq<char>) -> nat
    decreases s.len(),
    via block_text_len_decreases
{
    let n = run_len(s, CharClass::NonBreak);
    let behind = s.skip(n as int);
    let e = line_ending_len(behind);
    if n == 0 {
        0
    } else if paragraph_continues(behind) {
        n + e + block_text_len(behind.skip(e as int))
    } else {
        n
    }
}

#[via_fn]
proof fn block_text_len_decreases(s: Seq<char>) {
    lemma_run_len_bound(s, CharClass::NonBreak);
}

/// The text of a paragraph is part of the input.
pub proof fn lemma_block_text_len_bound(s: Seq<char>)
    ensures
        block_text_len(s) <= s.len(),
        block_text_len(s) > 0 <==> run_len(s, CharClass::NonBreak) > 0,
    decreases s.len(),
{
    lemma_run_len_bound(s, CharClass::NonBreak);
    let n = run_len(s, CharClass::NonBreak);
    let behind = s.skip(n as int);
    let e = line_ending_len(behind);
    if n > 0 && paragraph_continues(behind) {
        lemma_block_text_len_bound(behind.skip(e as int));
    }
}

/// What stands between two lines of a paragraph: the line ending at the
/// front of `s` where the paragraph goes on behind it, else nothing. The
/// cursor stays where it is.
pub open spec fn separator(c: Cursor, s: Seq<char>) -> Parsed<Seq<char>> {
    let e = line_ending_len(s);
    if paragraph_continues(s) {
        hit(c, s.skip(e as int), s.take(e as int))
    } else {
        hit(c, s, Seq::empty())
    }
}

/// The text of the paragraph at the front of `s`. The cursor stays where it is.
pub open spec fn separate(c: Cursor, s: Seq<char>) -> Parsed<Seq<char>> {
    let n = block_text_len(s);
    if n > 0 {
        hit(c, s.skip(n as int), s.take(n as int))
    } else {
        miss(c)
    }
}

/// One item of a paragraph: an inline construct, a soft break, or an
/// asterisk; the soft break and the asterisk each in a transaction of its
/// own, so that the node spans its own source.
#[verifier::opaque]
pub open spec fn paragraph_item(c: Cursor, s: Seq<char>) -> Parsed<Tree> {
    let first = inline(c, s);
    if first.ok() {
        first
    } else {
        let second = settled(soft_break_node(first.cursor.begin(), s));
        if second.ok() {
            second
        } else {
            settled(asterisk(second.cursor.begin(), s))
        }
    }
}

/// The items of a paragraph, as many as there are.
pub open spec fn paragraph_items(c: Cursor, s: Seq<char>) -> ParsedMany
    decreases s.len(),
{
    let item = paragraph_item(c, s);
    if item.ok() && item.rest().len() < s.len() {
        after(item.value(), paragraph_items(item.cursor, item.rest()))
    } else {
        ParsedMany { cursor: item.cursor, rest: s, nodes: Seq::empty() }
    }
}

/// A paragraph: the text of the block, found without moving the cursor, and
/// then parsed into its items, which moves it. The node spans from where
/// the enclosing transaction began.
#[verifier::opaque]
pub open spec fn paragraph(c: Cursor, s: Seq<char>) -> Parsed<Tree> {
    let n = block_text_len(s);
    if n == 0 {
        miss(c)
    } else {
        let kids = paragraph_items(c, s.take(n as int));
        hit(
            kids.cursor,
            s.skip(n as int),
            Tree {
                elm: Element {
                    kind: ASTType::Paragraph,
                    meta: ASTMetaData::Nil,
                    value: Seq::empty(),
                    raw_value: s.take(n as int),
                    range: kids.cursor.range(),
                },
                children: kids.nodes,
            },
        )
    }
}

/// A block: a header, else a paragraph, else a line ending and the block
/// behind it; each alternative in a transaction of its own.
#[verifier::opaque]
pub open spec fn block(c: Cursor, s: Seq<char>) -> Parsed<Tree>
    decreases s.len(),
{
    let first = settled(headers(c.begin(), s));
    if first.ok() {
        first
    } else {
        let second = settled(paragraph(first.cursor.begin(), s));
        if second.ok() {
            second
        } else {
            let skipped = line_break(second.cursor.begin(), s);
            if skipped.ok() && skipped.rest().len() < s.len() {
                settled(block(skipped.cursor, skipped.rest()))
            } else {
                miss(skipped.cursor.rollback())
            }
        }
    }
}

/// Where the rule for a block gives up: behind the line endings at the front.
pub open spec fn block_stop(s: Seq<char>) -> Seq<char>
    decreases s.len(),
{
    let e = line_ending_len(s);
    if e > 0 {
        block_stop(s.skip(e as int))
    } else {
        s
    }
}

/// Blocks, each in a transaction of its own, as many as there are.
pub open spec fn blocks(c: Cursor, s: Seq<char>) -> ParsedMany
    decreases s.len(),
{
    let item = settled(block(c.begin(), s));
    if item.ok() && item.rest().len() < s.len() {
        after(item.value(), blocks(item.cursor, item.rest()))
    } else {
        ParsedMany { cursor: item.cursor, rest: s, nodes: Seq::empty() }
    }
}

/// What parsing a document gives: the cursor afterwards and the tree.
pub struct ParsedDocument {
    pub cursor: Cursor,
    pub tree: Tree,
}

/// A document: all the blocks of `s` in one transaction, behind the
/// children that `seed` has. The root holds the whole input as its raw
/// value and spans from where the enclosing transaction began.
pub open spec fn document(c: Cursor, s: Seq<char>, seed: Tree) -> ParsedDocument {
    let all = blocks(c.begin(), s);
    let done = all.cursor.commit();
    ParsedDocument {
        cursor: done,
        tree: Tree {
            elm: Element {
                kind: ASTType::Document,
                meta: ASTMetaData::Nil,
                value: Seq::empty(),
                raw_value: s,
                range: done.range(),
            },
            children: seed.children + all.nodes,
        },
    }
}

/// The tree that parsing `s` from scratch gives.
pub open spec fn parse(s: Seq<char>, seed: Tree) -> Tree {
    document(Cursor::start(), s, seed).tree
}

} // verus!
