//! Why the composite rules keep what their parts keep: each lemma takes
//! what holds of the parts of a rule and gives what holds of the rule. And
//! where the inline rule matches: wherever a non-break character is next.

use crate::ast::Tree;
use crate::cursor::{lemma_begin, lemma_begin_then_close, lemma_close, Cursor};
use crate::grammar;
use crate::grammar::{lemma_block_text_len_bound, lemma_run_len_bound, lemma_suffix_of_suffix, CharClass};
use crate::invariants::{ends_in_line, sound, sound_many, stays_in_line};
use vstd::prelude::*;

verus! {

/// An emphasis is sound where its body is.
pub proof fn lemma_emphasis_sound(c: Cursor, s: Seq<char>)
    requires
        ({
            let opened = grammar::one(c.begin(), s, CharClass::Only('*'));
            opened.ok() && !grammar::blank_ahead(s.skip(1)) ==> sound_many(
                opened.cursor,
                s.skip(1),
                grammar::emphasis_body(opened.cursor, s.skip(1)),
            )
        }),
    ensures
        sound(c, s, grammar::emphasis(c, s)),
        ends_in_line(c, grammar::emphasis(c, s)),
{
    lemma_begin(c);
    let opened = grammar::one(c.begin(), s, CharClass::Only('*'));
    if !opened.ok() || grammar::blank_ahead(s.skip(1)) {
        lemma_close(c, opened.cursor, false);
    } else {
        let body = grammar::emphasis_body(opened.cursor, s.skip(1));
        let closed = grammar::one(body.cursor, body.rest, CharClass::Only('*'));
        if body.nodes.len() == 0 || grammar::blank_behind(
            grammar::consumed(s.skip(1), body.rest),
        ) || !closed.ok() {
            lemma_close(c, body.cursor, false);
        } else {
            lemma_close(c, closed.cursor, true);
            let rest = body.rest.skip(1);
            lemma_suffix_of_suffix(body.rest, s.skip(1), s);
            lemma_suffix_of_suffix(rest, body.rest, s);
        }
    }
}

/// A header is sound where the inline constructs of its line are, and
/// where they end in the line.
pub proof fn lemma_headers_sound(c: Cursor, s: Seq<char>)
    requires
        ({
            let prefix = grammar::header_prefix(c.begin(), s);
            let line = prefix.rest();
            let n = grammar::run_len(line, CharClass::NonBreak);
            let kids = grammar::inlines(prefix.cursor, line.take(n as int));
            prefix.ok() && n > 0 ==> sound_many(prefix.cursor, line.take(n as int), kids)
                && stays_in_line(prefix.cursor, kids.cursor)
        }),
    ensures
        sound(c, s, grammar::headers(c, s)),
{
    reveal(grammar::headers);
    lemma_begin(c);
    let first = c.begin();
    lemma_run_len_bound(s, CharClass::Only(' '));
    let indent = grammar::some_of(first, s, CharClass::Only(' '), 0, 3);
    lemma_run_len_bound(indent.rest(), CharClass::Only('#'));
    let pounds = grammar::some_of(indent.cursor, indent.rest(), CharClass::Only('#'), 1, 6);
    let prefix = grammar::header_prefix(first, s);
    if !prefix.ok() {
        lemma_close(c, prefix.cursor, false);
    } else {
        lemma_run_len_bound(pounds.rest(), CharClass::Only(' '));
        lemma_suffix_of_suffix(pounds.rest(), indent.rest(), s);
        lemma_suffix_of_suffix(prefix.rest(), pounds.rest(), s);
        let line = prefix.rest();
        lemma_run_len_bound(line, CharClass::NonBreak);
        let n = grammar::run_len(line, CharClass::NonBreak);
        if n == 0 {
            lemma_close(c, prefix.cursor, false);
        } else {
            let kids = grammar::inlines(prefix.cursor, line.take(n as int));
            let behind = line.skip(n as int);
            lemma_run_len_bound(behind, CharClass::Only('#'));
            let tail = grammar::some_of(kids.cursor, behind, CharClass::Only('#'), 0, line.len());
            let rest = tail.rest();
            lemma_suffix_of_suffix(behind, line, s);
            lemma_suffix_of_suffix(rest, behind, s);
            if grammar::line_ending_len(rest) > 0 || rest.len() == 0 {
                lemma_close(c, tail.cursor, true);
            } else {
                lemma_close(c, tail.cursor, false);
            }
        }
    }
}

/// A paragraph is sound where its items are.
pub proof fn lemma_paragraph_sound(c: Cursor, s: Seq<char>)
    requires
        ({
            let n = grammar::block_text_len(s);
            n > 0 ==> sound_many(c, s.take(n as int), grammar::paragraph_items(c, s.take(n as int)))
        }),
    ensures
        sound(c, s, grammar::paragraph(c, s)),
{
    reveal(grammar::paragraph);
    lemma_block_text_len_bound(s);
}

/// A document parsed from an ordered, unlocked cursor into a seed without
/// children is well ranged, where its blocks are sound.
pub proof fn lemma_document_sound(c: Cursor, s: Seq<char>, seed: Tree)
    requires
        sound_many(c.begin(), s, grammar::blocks(c.begin(), s)),
    ensures
        grammar::document(c, s, seed).cursor.saved == c.saved,
        grammar::document(c, s, seed).cursor.locked == c.locked,
        c.ordered() && !c.locked && seed.children.len() == 0 ==> grammar::document(
            c,
            s,
            seed,
        ).tree.well_ranged(),
{
    lemma_begin(c);
    let all = grammar::blocks(c.begin(), s);
    lemma_close(c, all.cursor, true);
    if seed.children.len() == 0 {
        assert(seed.children + all.nodes =~= all.nodes);
    }
}

/// The inline rule matches wherever a non-break character is next: plain
/// text as a text run, and a special character, where it opens no emphasis,
/// as text of its own.
pub proof fn lemma_inline_matches(c: Cursor, s: Seq<char>)
    requires
        s.len() > 0,
        grammar::is_non_break(s[0]),
    ensures
        grammar::inline(c, s).ok(),
{
    reveal(grammar::inline);
}

/// The inline rule fails wherever no non-break character is next, and then
/// leaves the cursor untouched.
pub proof fn lemma_inline_fails(c: Cursor, s: Seq<char>)
    requires
        s.len() == 0 || !grammar::is_non_break(s[0]),
    ensures
        !grammar::inline(c, s).ok(),
        grammar::inline(c, s).cursor == c,
{
    reveal(grammar::inline);
    lemma_begin_then_close(c, false);
    lemma_begin_then_close(c.begin(), false);
    lemma_begin_then_close(c.begin().begin(), false);
}

} // verus!
