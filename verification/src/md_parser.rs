//! The parser: a cursor with transactions, the recognisers for characters
//! and strings, and the inline and block rules built on them.

use crate::ast::{trees, ASTElm, ASTMetaData, ASTNode, ASTPos, ASTRange, ASTType, Tree};
use crate::cursor::{lemma_begin, lemma_begin_then_close, lemma_close, Cursor};
use crate::grammar;
use crate::grammar::{
    is_suffix, lemma_block_text_len_bound, lemma_breaks, lemma_run_len_bound,
    lemma_suffix_of_suffix, settled, CharClass, Parsed,
};
use crate::input::{front, take_any, take_char, take_end, take_line_ending};
use crate::soundness::{
    lemma_document_sound, lemma_emphasis_sound, lemma_headers_sound, lemma_paragraph_sound,
};
use crate::invariants::{
    all_within, ends_in_line, fails_clean, forward, lemma_gather, reach, sound, sound_many,
    stays_in_line, steady,
};
use vstd::prelude::*;
use vstd::string::StringExecFns;

verus! {

/// Why a rule did not match.
#[derive(Debug, Clone, Copy, PartialEq, Eq, Structural)]
pub enum ErrorKind {
    /// Another character was asked for.
    Char,
    /// A character was asked for at the end of the input, or the end of
    /// the input where there was a character.
    Eof,
    /// No line ending.
    CrLf,
    /// What must not come next does.
    Not,
}

/// A rule that did not match: the input it was tried on, and why.
#[derive(Debug, Clone, Copy, PartialEq, Eq)]
pub struct ParseError<'a> {
    pub input: &'a str,
    pub code: ErrorKind,
}

/// Model of a failure.
pub struct Failure {
    pub input: Seq<char>,
    pub code: ErrorKind,
}

impl<'a> View for ParseError<'a> {
    type V = Failure;

    open spec fn view(&self) -> Failure {
        Failure { input: self.input@, code: self.code }
    }
}

impl<'a> ParseError<'a> {
    pub fn new(input: &'a str, code: ErrorKind) -> (e: ParseError<'a>)
        ensures
            e@ == (Failure { input: input@, code }),
    {
        ParseError { input, code }
    }
}

/// The failure of a rule that asks for more input at the end of it, or for
/// another character than the one it finds.
pub open spec fn no_such_char(s: Seq<char>) -> Failure {
    Failure {
        input: s,
        code: if s.len() == 0 {
            ErrorKind::Eof
        } else {
            ErrorKind::Char
        },
    }
}

/// The outcome of a parsing function is the one that the rule gives: the
/// same match or none, and what is left over is the rest of the input.
pub open spec fn agrees<'a, T: View>(r: Result<(&'a str, T), ParseError<'a>>, p: Parsed<T::V>, s: Seq<char>) -> bool {
    match r {
        Ok((rest, value)) => p.out == Some((rest@, value@)) && is_suffix(rest@, s),
        Err(_) => p.out is None,
    }
}

/// The cursor of one parse and its transactions.
pub struct Parser {
    current_pos: ASTPos,
    previous_pos: ASTPos,
    tran_buff: Vec<ASTPos>,
    pos_lock: bool,
    pos_br: bool,
}

impl View for Parser {
    type V = Cursor;

    closed spec fn view(&self) -> Cursor {
        Cursor {
            current: self.current_pos@,
            previous: self.previous_pos@,
            saved: self.tran_buff@.map_values(|p: ASTPos| p@),
            locked: self.pos_lock,
            just_broke: self.pos_br,
        }
    }
}

impl Parser {
    pub fn new() -> (parser: Parser)
        ensures
            parser@ == Cursor::start(),
    {
        let parser = Parser {
            current_pos: ASTPos::new(1, 1, 0),
            previous_pos: ASTPos::new(1, 1, 0),
            tran_buff: Vec::new(),
            pos_lock: false,
            pos_br: false,
        };
        assert(parser@.saved =~= Seq::empty());
        parser
    }

    /// The number of open transactions.
    pub fn pos_tran_depth(&self) -> (depth: usize)
        ensures
            depth == self@.saved.len(),
    {
        self.tran_buff.len()
    }

    /// Whether advances and transactions are suspended.
    pub fn pos_locked(&self) -> (locked: bool)
        ensures
            locked == self@.locked,
    {
        self.pos_lock
    }

    /// Opens a transaction.
    pub fn pos_begin_transaction(&mut self)
        ensures
            final(self)@ == old(self)@.begin(),
    {
        if !self.pos_lock {
            self.tran_buff.push(self.current_pos);
            assert(self@.saved =~= old(self)@.saved.push(old(self)@.current));
        }
    }

    /// Closes the innermost transaction and keeps what was consumed.
    pub fn pos_commit(&mut self)
        ensures
            final(self)@ == old(self)@.commit(),
    {
        if !self.pos_lock {
            let _ = self.tran_buff.pop();
            assert(self@.saved =~= old(self)@.commit().saved);
        }
    }

    /// Closes the innermost transaction and goes back to where it began.
    pub fn pos_rollback(&mut self)
        ensures
            final(self)@ == old(self)@.rollback(),
    {
        if !self.pos_lock {
            match self.tran_buff.pop() {
                Some(result) => {
                    self.current_pos.set_pos(result.pos());
                    self.current_pos.set_line(result.line());
                    self.current_pos.set_ch(result.ch());
                    assert(self@.saved =~= old(self)@.saved.drop_last());
                },
                None => {},
            }
        }
    }

    /// Closes the innermost transaction after an attempt: commits where it
    /// succeeded, rolls back where it failed.
    pub fn pos_end_transaction(&mut self, success: bool)
        ensures
            final(self)@ == old(self)@.close(success),
    {
        if success {
            self.pos_commit();
        } else {
            self.pos_rollback();
        }
    }

    /// The range since the innermost open transaction began.
    pub fn pos_get_range(&self) -> (range: ASTRange)
        ensures
            range@ == self@.range(),
    {
        let n = self.tran_buff.len();
        if n > 0 {
            ASTRange { begin: self.tran_buff[n - 1], end: self.current_pos }
        } else {
            ASTRange { begin: ASTPos::new(1, 1, 0), end: self.current_pos }
        }
    }

    /// The range since the innermost open transaction began, without the
    /// line ending that the last advance went over, if it went over one.
    pub fn pos_get_previous_line_range(&self) -> (range: ASTRange)
        ensures
            range@ == self@.range_before_break(),
    {
        let end = if self.pos_br {
            self.previous_pos
        } else {
            self.current_pos
        };
        let n = self.tran_buff.len();
        if n > 0 {
            ASTRange { begin: self.tran_buff[n - 1], end }
        } else {
            ASTRange { begin: ASTPos::new(1, 1, 0), end }
        }
    }

    /// Suspends advances and transactions.
    pub fn pos_lock(&mut self)
        ensures
            final(self)@ == old(self)@.with_lock(true),
    {
        self.pos_lock = true;
    }

    /// Resumes advances and transactions.
    pub fn pos_unlock(&mut self)
        ensures
            final(self)@ == old(self)@.with_lock(false),
    {
        self.pos_lock = false;
    }

    /// Suspends advances and transactions for a scan that must not move
    /// the cursor, and says whether they were suspended already.
    pub fn pos_isolate(&mut self) -> (was_locked: bool)
        ensures
            was_locked == old(self)@.locked,
            final(self)@ == old(self)@.with_lock(true),
    {
        let was_locked = self.pos_lock;
        self.pos_lock();
        was_locked
    }

    /// Ends a scan begun by `pos_isolate`: resumes advances and
    /// transactions unless they were suspended before it.
    pub fn pos_release(&mut self, was_locked: bool)
        ensures
            final(self)@ == old(self)@.with_lock(was_locked && old(self)@.locked),
    {
        if !was_locked {
            self.pos_unlock();
        }
    }

    // -- pos counter --
    /// Remembers the live position as the one before the advance to come.
    fn be_change_pos(&mut self)
        ensures
            final(self)@ == (Cursor {
                previous: old(self)@.current,
                just_broke: false,
                ..old(self)@
            }),
    {
        self.previous_pos.set_line(self.current_pos.line());
        self.previous_pos.set_ch(self.current_pos.ch());
        self.previous_pos.set_pos(self.current_pos.pos());
        self.pos_br = false;
    }

    pub fn increase_pos_n(&mut self, n: u32)
        requires
            !old(self)@.locked ==> old(self)@.current.offset + n <= u32::MAX,
        ensures
            final(self)@ == old(self)@.skip_offset(n as nat),
    {
        if !self.pos_lock {
            self.be_change_pos();
            self.current_pos.increase_pos_n(n);
        }
    }

    pub fn increase_line_n(&mut self, n: u32)
        requires
            !old(self)@.locked ==> old(self)@.current.line + n <= u32::MAX,
            !old(self)@.locked ==> old(self)@.current.offset + n <= u32::MAX,
        ensures
            final(self)@ == old(self)@.skip_lines(n as nat),
    {
        if !self.pos_lock {
            self.be_change_pos();
            self.pos_br = true;
            self.current_pos.increase_line_n(n);
        }
    }

    pub fn increase_ch_n(&mut self, n: u32)
        requires
            !old(self)@.locked ==> old(self)@.current.column + n <= u32::MAX,
            !old(self)@.locked ==> old(self)@.current.offset + n <= u32::MAX,
        ensures
            final(self)@ == old(self)@.skip_columns(n as nat),
    {
        if !self.pos_lock {
            self.be_change_pos();
            self.current_pos.increase_ch_n(n);
        }
    }

    pub fn increase_pos(&mut self)
        requires
            !old(self)@.locked ==> old(self)@.current.offset + 1 <= u32::MAX,
        ensures
            final(self)@ == old(self)@.skip_offset(1),
    {
        self.increase_pos_n(1);
    }

    pub fn increase_line(&mut self)
        requires
            !old(self)@.locked ==> old(self)@.current.line + 1 <= u32::MAX,
            !old(self)@.locked ==> old(self)@.current.offset + 1 <= u32::MAX,
        ensures
            final(self)@ == old(self)@.skip_lines(1),
    {
        self.increase_line_n(1);
    }

    pub fn increase_ch(&mut self)
        requires
            !old(self)@.locked ==> old(self)@.current.column + 1 <= u32::MAX,
            !old(self)@.locked ==> old(self)@.current.offset + 1 <= u32::MAX,
        ensures
            final(self)@ == old(self)@.past_chars(1),
    {
        self.increase_ch_n(1);
    }

    /// One advance over a line ending of `len` characters: to the start of
    /// the next line, `len` characters further in the text.
    pub fn increase_line_ending(&mut self, len: u32)
        requires
            len >= 1,
            !old(self)@.locked ==> old(self)@.current.line + 1 <= u32::MAX,
            !old(self)@.locked ==> old(self)@.current.offset + len <= u32::MAX,
        ensures
            final(self)@ == old(self)@.past_line_ending(len as nat),
    {
        if !self.pos_lock {
            self.be_change_pos();
            self.pos_br = true;
            self.current_pos.increase_line_n(1);
            self.current_pos.increase_pos_n(len - 1);
        }
    }
}

// UTILITIES
/// The texts of `parts` one after another.
pub open spec fn joined(parts: Seq<Seq<char>>) -> Seq<char>
    decreases parts.len(),
{
    if parts.len() == 0 {
        Seq::empty()
    } else {
        joined(parts.drop_last()) + parts.last()
    }
}

/// Joins string slices into one string.
pub fn util_vecstr_to_str(s: Vec<&str>) -> (joined_up: String)
    ensures
        joined_up@ == joined(Seq::new(s@.len(), |i: int| s@[i]@)),
{
    let ghost parts = Seq::new(s@.len(), |i: int| s@[i]@);
    let mut result = String::new();
    let mut i: usize = 0;
    while i < s.len()
        invariant
            i <= s.len(),
            parts == Seq::new(s@.len(), |i: int| s@[i]@),
            result@ == joined(parts.take(i as int)),
        decreases s.len() - i,
    {
        proof {
            assert(parts.take(i + 1).drop_last() =~= parts.take(i as int));
        }
        result.append(s[i]);
        i = i + 1;
    }
    proof {
        assert(parts.take(s.len() as int) =~= parts);
    }
    result
}

/// Joins strings into one string.
pub fn util_vecstring_to_string(s: Vec<String>) -> (joined_up: String)
    ensures
        joined_up@ == joined(Seq::new(s@.len(), |i: int| s@[i]@)),
{
    let ghost parts = Seq::new(s@.len(), |i: int| s@[i]@);
    let mut result = String::new();
    let mut i: usize = 0;
    while i < s.len()
        invariant
            i <= s.len(),
            parts == Seq::new(s@.len(), |i: int| s@[i]@),
            result@ == joined(parts.take(i as int)),
        decreases s.len() - i,
    {
        proof {
            assert(parts.take(i + 1).drop_last() =~= parts.take(i as int));
        }
        result.append(s[i].as_str());
        i = i + 1;
    }
    proof {
        assert(parts.take(s.len() as int) =~= parts);
    }
    result
}

/// Whether `c` is one of the ASCII punctuation symbols.
pub fn is_special_char(c: char) -> (special: bool)
    ensures
        special == grammar::is_special(c),
{
    match c {
        '!' | '"' | '#' | '$' | '%' | '&' | '\'' | '(' | ')' | '*' | '+' | ',' | '-' | '.' | '/' => true,
        ':' | ';' | '<' | '=' | '>' | '?' | '@' => true,
        '[' | '\\' | ']' | '^' | '_' | '`' => true,
        '{' | '|' | '}' | '~' => true,
        _ => false,
    }
}

/// The failure of the rule for one plain character.
pub open spec fn no_plain_char(s: Seq<char>) -> Failure {
    if s.len() > 0 && grammar::is_special(s[0]) {
        Failure { input: s, code: ErrorKind::Not }
    } else {
        no_such_char(s)
    }
}

// base char parsers
impl Parser {
    /// Accepts a character that is neither a control code nor the space.
    pub fn decide_char_printable(&self, input: char) -> (r: Result<char, String>)
        ensures
            r is Ok <==> grammar::is_printable(input),
            r matches Ok(c) ==> c == input,
            r matches Err(message) ==> message@ == "not printable char"@,
    {
        let i = input as u32;
        let mut r = i <= 0x1F;
        r = r || i == 0x7F;
        r = r || i == 0x20;
        if !r {
            Ok(input)
        } else {
            Err(String::from_str("not printable char"))
        }
    }

    /// One printable character.
    pub fn printable_char<'a>(&mut self, s: &'a str) -> (r: Result<(&'a str, char), ParseError<'a>>)
        requires
            grammar::one(old(self)@, s@, CharClass::Printable).ok() ==> old(self)@.has_room_for_chars(1),
        ensures
            final(self)@ == grammar::one(old(self)@, s@, CharClass::Printable).cursor,
            agrees(r, grammar::one(old(self)@, s@, CharClass::Printable), s@),
            r matches Err(e) ==> e@ == no_such_char(s@),
    {
        match take_any(s) {
            Err(_) => Err(ParseError::new(s, ErrorKind::Eof)),
            Ok((rest, c)) => match self.decide_char_printable(c) {
                Ok(c) => {
                    self.increase_ch();
                    Ok((rest, c))
                },
                Err(_) => Err(ParseError::new(s, ErrorKind::Char)),
            },
        }
    }

    /// The character `c`.
    pub fn single_char<'a>(&mut self, c: char, s: &'a str) -> (r: Result<(&'a str, char), ParseError<'a>>)
        requires
            grammar::one(old(self)@, s@, CharClass::Only(c)).ok() ==> old(self)@.has_room_for_chars(1),
        ensures
            final(self)@ == grammar::one(old(self)@, s@, CharClass::Only(c)).cursor,
            agrees(r, grammar::one(old(self)@, s@, CharClass::Only(c)), s@),
            r matches Err(e) ==> e@ == (Failure { input: s@, code: ErrorKind::Char }),
    {
        match take_char(c, s) {
            Ok((remain, result)) => {
                self.increase_ch();
                Ok((remain, result))
            },
            Err(_) => Err(ParseError::new(s, ErrorKind::Char)),
        }
    }
}

impl Parser {
    /* ------- characters ------- */
    /// One character that is no control code, space, tab or line ending.
    pub fn parse_nc_char<'a>(&mut self, s: &'a str) -> (r: Result<(&'a str, char), ParseError<'a>>)
        requires
            grammar::one(old(self)@, s@, CharClass::Printable).ok() ==> old(self)@.has_room_for_chars(1),
        ensures
            final(self)@ == grammar::one(old(self)@, s@, CharClass::Printable).cursor,
            agrees(r, grammar::one(old(self)@, s@, CharClass::Printable), s@),
            r matches Err(e) ==> e@ == no_such_char(s@),
    {
        self.printable_char(s)
    }

    /// One tab.
    pub fn parse_tab<'a>(&mut self, s: &'a str) -> (r: Result<(&'a str, char), ParseError<'a>>)
        requires
            grammar::one(old(self)@, s@, CharClass::Only('\t')).ok() ==> old(self)@.has_room_for_chars(1),
        ensures
            final(self)@ == grammar::one(old(self)@, s@, CharClass::Only('\t')).cursor,
            agrees(r, grammar::one(old(self)@, s@, CharClass::Only('\t')), s@),
            r matches Err(e) ==> e@ == (Failure { input: s@, code: ErrorKind::Char }),
    {
        self.single_char('\t', s)
    }

    /// One space.
    pub fn parse_space<'a>(&mut self, s: &'a str) -> (r: Result<(&'a str, char), ParseError<'a>>)
        requires
            grammar::one(old(self)@, s@, CharClass::Only(' ')).ok() ==> old(self)@.has_room_for_chars(1),
        ensures
            final(self)@ == grammar::one(old(self)@, s@, CharClass::Only(' ')).cursor,
            agrees(r, grammar::one(old(self)@, s@, CharClass::Only(' ')), s@),
            r matches Err(e) ==> e@ == (Failure { input: s@, code: ErrorKind::Char }),
    {
        self.single_char(' ', s)
    }

    /// One tab, space or printable character.
    fn non_break_char<'a>(&mut self, s: &'a str) -> (r: Result<(&'a str, char), ParseError<'a>>)
        requires
            grammar::one(old(self)@, s@, CharClass::NonBreak).ok() ==> old(self)@.has_room_for_chars(1),
        ensures
            final(self)@ == grammar::one(old(self)@, s@, CharClass::NonBreak).cursor,
            agrees(r, grammar::one(old(self)@, s@, CharClass::NonBreak), s@),
            r matches Err(e) ==> e@ == no_such_char(s@),
    {
        match self.parse_tab(s) {
            Ok(found) => Ok(found),
            Err(_) => match self.parse_space(s) {
                Ok(found) => Ok(found),
                Err(_) => self.parse_nc_char(s),
            },
        }
    }

    /// One tab, space or printable character, as text.
    pub fn parse_nbr_char<'a>(&mut self, s: &'a str) -> (r: Result<(&'a str, String), ParseError<'a>>)
        requires
            grammar::one_text(old(self)@, s@, CharClass::NonBreak).ok() ==> old(self)@.has_room_for_chars(1),
        ensures
            final(self)@ == grammar::one_text(old(self)@, s@, CharClass::NonBreak).cursor,
            agrees(r, grammar::one_text(old(self)@, s@, CharClass::NonBreak), s@),
            r matches Err(e) ==> e@ == no_such_char(s@),
    {
        match self.non_break_char(s) {
            Ok((rest, _)) => Ok((rest, String::from_str(front(s, rest)))),
            Err(e) => Err(e),
        }
    }

    /// One space or line feed.
    pub fn parse_blank_char<'a>(&mut self, s: &'a str) -> (r: Result<(&'a str, char), ParseError<'a>>)
        requires
            grammar::one(old(self)@, s@, CharClass::Blank).ok() ==> old(self)@.has_room_for_chars(1),
        ensures
            final(self)@ == grammar::one(old(self)@, s@, CharClass::Blank).cursor,
            agrees(r, grammar::one(old(self)@, s@, CharClass::Blank), s@),
            r matches Err(e) ==> e@ == (Failure { input: s@, code: ErrorKind::Char }),
    {
        match self.single_char(' ', s) {
            Ok(found) => Ok(found),
            Err(_) => self.single_char('\n', s),
        }
    }

    /// Whether a special character is next. The cursor stays where it is.
    fn special_ahead(&mut self, s: &str) -> (special: bool)
        ensures
            final(self)@ == old(self)@,
            special == (s@.len() > 0 && grammar::is_special(s@[0])),
    {
        let was_locked = self.pos_isolate();
        let found = self.parse_sp_char(s);
        self.pos_release(was_locked);
        found.is_ok()
    }

    /// One non-break character that is not special.
    fn plain_char<'a>(&mut self, s: &'a str) -> (r: Result<(&'a str, char), ParseError<'a>>)
        requires
            grammar::one(old(self)@, s@, CharClass::Plain).ok() ==> old(self)@.has_room_for_chars(1),
        ensures
            final(self)@ == grammar::one(old(self)@, s@, CharClass::Plain).cursor,
            agrees(r, grammar::one(old(self)@, s@, CharClass::Plain), s@),
            r matches Err(e) ==> e@ == no_plain_char(s@),
    {
        if self.special_ahead(s) {
            Err(ParseError::new(s, ErrorKind::Not))
        } else {
            self.non_break_char(s)
        }
    }

    /// One non-break character that is not special, as text.
    pub fn parse_nsp_char<'a>(&mut self, s: &'a str) -> (r: Result<(&'a str, String), ParseError<'a>>)
        requires
            grammar::one_text(old(self)@, s@, CharClass::Plain).ok() ==> old(self)@.has_room_for_chars(1),
        ensures
            final(self)@ == grammar::one_text(old(self)@, s@, CharClass::Plain).cursor,
            agrees(r, grammar::one_text(old(self)@, s@, CharClass::Plain), s@),
            r matches Err(e) ==> e@ == no_plain_char(s@),
    {
        match self.plain_char(s) {
            Ok((rest, _)) => Ok((rest, String::from_str(front(s, rest)))),
            Err(e) => Err(e),
        }
    }

    /// One special character.
    pub fn parse_sp_char<'a>(&mut self, s: &'a str) -> (r: Result<(&'a str, char), ParseError<'a>>)
        requires
            grammar::one(old(self)@, s@, CharClass::Special).ok() ==> old(self)@.has_room_for_chars(1),
        ensures
            final(self)@ == grammar::one(old(self)@, s@, CharClass::Special).cursor,
            agrees(r, grammar::one(old(self)@, s@, CharClass::Special), s@),
            r matches Err(e) ==> e@ == (Failure { input: s@, code: ErrorKind::Char }),
    {
        match take_any(s) {
            Ok((rest, c)) => {
                if is_special_char(c) {
                    self.increase_ch();
                    Ok((rest, c))
                } else {
                    Err(ParseError::new(s, ErrorKind::Char))
                }
            },
            Err(_) => Err(ParseError::new(s, ErrorKind::Char)),
        }
    }

    /// One asterisk.
    pub fn parse_asterisk_char<'a>(&mut self, s: &'a str) -> (r: Result<(&'a str, char), ParseError<'a>>)
        requires
            grammar::one(old(self)@, s@, CharClass::Only('*')).ok() ==> old(self)@.has_room_for_chars(1),
        ensures
            final(self)@ == grammar::one(old(self)@, s@, CharClass::Only('*')).cursor,
            agrees(r, grammar::one(old(self)@, s@, CharClass::Only('*')), s@),
            r matches Err(e) ==> e@ == (Failure { input: s@, code: ErrorKind::Char }),
    {
        self.single_char('*', s)
    }
}

/// How a greedy run of characters of one class ended: the input behind
/// it, whether it took any character in, and the failure that stopped it.
struct RunEnd<'a> {
    rest: &'a str,
    any: bool,
    stop: ParseError<'a>,
}

/* ---------- strings ----------*/
impl Parser {
    /// One character of `class`, by the function that recognises the class.
    fn class_char<'a>(&mut self, class: CharClass, s: &'a str) -> (r: Result<(&'a str, char), ParseError<'a>>)
        requires
            grammar::one(old(self)@, s@, class).ok() ==> old(self)@.has_room_for_chars(1),
        ensures
            final(self)@ == grammar::one(old(self)@, s@, class).cursor,
            agrees(r, grammar::one(old(self)@, s@, class), s@),
            r matches Err(e) ==> e.input@ == s@,
            r matches Err(e) ==> class == CharClass::NonBreak ==> e@ == no_such_char(s@),
            r matches Err(e) ==> class == CharClass::Plain ==> e@ == no_plain_char(s@),
            r matches Err(e) ==> class is Only ==> e.code == ErrorKind::Char,
    {
        match class {
            CharClass::Only(c) => self.single_char(c, s),
            CharClass::Blank => self.parse_blank_char(s),
            CharClass::Printable => self.parse_nc_char(s),
            CharClass::NonBreak => self.non_break_char(s),
            CharClass::Special => self.parse_sp_char(s),
            CharClass::Plain => self.plain_char(s),
        }
    }

    /// All the characters of `class` at the front of `s`.
    fn class_run<'a>(&mut self, class: CharClass, s: &'a str) -> (end: RunEnd<'a>)
        requires
            old(self)@.has_room_for_chars(grammar::run_len(s@, class)),
        ensures
            final(self)@ == old(self)@.past_chars(grammar::run_len(s@, class)),
            grammar::run_len(s@, class) <= s@.len(),
            end.rest@ == s@.skip(grammar::run_len(s@, class) as int),
            end.any == (grammar::run_len(s@, class) > 0),
            !end.any ==> end.rest@ == s@,
            end.stop.input@ == end.rest@,
            class == CharClass::NonBreak ==> end.stop@ == no_such_char(end.rest@),
            class == CharClass::Plain ==> end.stop@ == no_plain_char(end.rest@),
            class is Only ==> end.stop.code == ErrorKind::Char,
    {
        let mut rest = s;
        let mut any = false;
        let ghost mut taken: nat = 0;
        loop
            invariant
                old(self)@.has_room_for_chars(grammar::run_len(s@, class)),
                taken <= s@.len(),
                rest@ == s@.skip(taken as int),
                self@ == old(self)@.past_chars(taken),
                grammar::run_len(s@, class) == taken + grammar::run_len(rest@, class),
                any == (taken > 0),
            decreases rest@.len(),
        {
            match self.class_char(class, rest) {
                Ok((behind, _)) => {
                    proof {
                        assert(s@.skip(taken as int).skip(1) =~= s@.skip(taken as int + 1));
                        taken = taken + 1;
                    }
                    rest = behind;
                    any = true;
                },
                Err(stop) => {
                    assert(s@.skip(0) =~= s@);
                    return RunEnd { rest, any, stop };
                },
            }
        }
    }

    /// The characters of `class` at the front of `s`, `max` of them at most.
    fn class_run_up_to<'a>(&mut self, class: CharClass, max: usize, s: &'a str) -> (r: (&'a str, usize))
        requires
            old(self)@.has_room(s@.len()),
        ensures
            r.1 == if grammar::run_len(s@, class) <= max {
                grammar::run_len(s@, class)
            } else {
                max as nat
            },
            r.1 <= s@.len(),
            final(self)@ == old(self)@.past_chars(r.1 as nat),
            r.0@ == s@.skip(r.1 as int),
    {
        let mut rest = s;
        let mut count: usize = 0;
        while count < max
            invariant
                old(self)@.has_room(s@.len()),
                count <= max,
                count <= s@.len(),
                rest@ == s@.skip(count as int),
                self@ == old(self)@.past_chars(count as nat),
                grammar::run_len(s@, class) == count + grammar::run_len(rest@, class),
            decreases max - count,
        {
            match self.class_char(class, rest) {
                Ok((behind, _)) => {
                    proof {
                        assert(s@.skip(count as int).skip(1) =~= s@.skip(count as int + 1));
                    }
                    rest = behind;
                    count = count + 1;
                },
                Err(_) => {
                    return (rest, count);
                },
            }
        }
        (rest, count)
    }

    /// One space, as text.
    pub fn parse_space_string<'a>(&mut self, s: &'a str) -> (r: Result<(&'a str, String), ParseError<'a>>)
        requires
            grammar::one_text(old(self)@, s@, CharClass::Only(' ')).ok() ==> old(self)@.has_room_for_chars(1),
        ensures
            final(self)@ == grammar::one_text(old(self)@, s@, CharClass::Only(' ')).cursor,
            agrees(r, grammar::one_text(old(self)@, s@, CharClass::Only(' ')), s@),
            r matches Err(e) ==> e@ == (Failure { input: s@, code: ErrorKind::Char }),
    {
        match self.parse_space(s) {
            Ok((rest, _)) => Ok((rest, String::from_str(front(s, rest)))),
            Err(e) => Err(e),
        }
    }

    /// One line ending.
    pub fn parse_line_break<'a>(&mut self, s: &'a str) -> (r: Result<(&'a str, &'a str), ParseError<'a>>)
        requires
            grammar::line_break(old(self)@, s@).ok() ==> old(self)@.has_room_for_line_ending(
                grammar::line_ending_len(s@),
            ),
        ensures
            final(self)@ == grammar::line_break(old(self)@, s@).cursor,
            agrees(r, grammar::line_break(old(self)@, s@), s@),
            r matches Err(e) ==> e@ == (Failure { input: s@, code: ErrorKind::CrLf }),
    {
        match take_line_ending(s) {
            Ok((rest, ending)) => {
                let len: u32 = if ending.unicode_len() == 1 {
                    1
                } else {
                    2
                };
                self.increase_line_ending(len);
                Ok((rest, ending))
            },
            Err(_) => Err(ParseError::new(s, ErrorKind::CrLf)),
        }
    }

    /// One line ending, as text.
    pub fn parse_soft_break<'a>(&mut self, s: &'a str) -> (r: Result<(&'a str, String), ParseError<'a>>)
        requires
            grammar::line_break(old(self)@, s@).ok() ==> old(self)@.has_room_for_line_ending(
                grammar::line_ending_len(s@),
            ),
        ensures
            final(self)@ == grammar::line_break(old(self)@, s@).cursor,
            agrees(r, grammar::line_break(old(self)@, s@), s@),
            r matches Err(e) ==> e@ == (Failure { input: s@, code: ErrorKind::CrLf }),
    {
        match self.parse_line_break(s) {
            Ok((rest, ending)) => Ok((rest, String::from_str(ending))),
            Err(e) => Err(e),
        }
    }

    /// One line ending, as a soft break node that spans from where the
    /// innermost open transaction began and holds the line ending as raw value.
    pub fn parse_soft_break_node<'a>(&mut self, s: &'a str) -> (r: Result<(&'a str, ASTNode), ParseError<'a>>)
        requires
            grammar::line_break(old(self)@, s@).ok() ==> old(self)@.has_room_for_line_ending(
                grammar::line_ending_len(s@),
            ),
        ensures
            final(self)@ == grammar::soft_break_node(old(self)@, s@).cursor,
            agrees(r, grammar::soft_break_node(old(self)@, s@), s@),
            r matches Err(e) ==> e@ == (Failure { input: s@, code: ErrorKind::CrLf }),
    {
        match self.parse_soft_break(s) {
            Ok((remain, ending)) => {
                let mut elm = ASTElm::new_softbreak(self.pos_get_range());
                elm.raw_value = ending;
                Ok((remain, ASTNode::new(elm)))
            },
            Err(e) => Err(e),
        }
    }

    /// Two or more line endings in a row, as text. Where only one is there,
    /// the cursor stays behind it.
    pub fn parse_hard_break<'a>(&mut self, s: &'a str) -> (r: Result<(&'a str, String), ParseError<'a>>)
        requires
            old(self)@.has_room(s@.len()),
        ensures
            final(self)@ == grammar::hard_break(old(self)@, s@).cursor,
            agrees(r, grammar::hard_break(old(self)@, s@), s@),
            r matches Err(e) ==> e@ == (Failure {
                input: grammar::breaks(old(self)@, s@, grammar::hard_break_limit()).rest,
                code: ErrorKind::CrLf,
            }),
    {
        let mut rest = s;
        let mut count: u32 = 0;
        while count < 9999
            invariant
                old(self)@.has_room(s@.len()),
                self@.has_room(rest@.len()),
                is_suffix(rest@, s@),
                count <= 9999,
                ({
                    let whole = grammar::breaks(old(self)@, s@, grammar::hard_break_limit());
                    let more = grammar::breaks(self@, rest@, (9999 - count) as nat);
                    &&& whole.cursor == more.cursor
                    &&& whole.rest == more.rest
                    &&& whole.count == more.count + count
                }),
            decreases 9999 - count,
        {
            match self.parse_soft_break(rest) {
                Ok((behind, _)) => {
                    proof {
                        lemma_suffix_of_suffix(behind@, rest@, s@);
                    }
                    rest = behind;
                    count = count + 1;
                },
                Err(_) => {
                    if count >= 2 {
                        return Ok((rest, String::from_str(front(s, rest))));
                    } else {
                        return Err(ParseError::new(rest, ErrorKind::CrLf));
                    }
                },
            }
        }
        Ok((rest, String::from_str(front(s, rest))))
    }

    /// Two or more line endings in a row, as a hard break node that spans
    /// from where the innermost open transaction began and holds the line
    /// endings as raw value.
    pub fn parse_hard_break_node<'a>(&mut self, s: &'a str) -> (r: Result<(&'a str, ASTNode), ParseError<'a>>)
        requires
            old(self)@.has_room(s@.len()),
        ensures
            final(self)@ == grammar::hard_break_node(old(self)@, s@).cursor,
            agrees(r, grammar::hard_break_node(old(self)@, s@), s@),
            r matches Err(e) ==> e@ == (Failure {
                input: grammar::breaks(old(self)@, s@, grammar::hard_break_limit()).rest,
                code: ErrorKind::CrLf,
            }),
    {
        match self.parse_hard_break(s) {
            Ok((remain, endings)) => {
                let mut elm = ASTElm::new_hardbreak(self.pos_get_range());
                elm.raw_value = endings;
                Ok((remain, ASTNode::new(elm)))
            },
            Err(e) => Err(e),
        }
    }

    /// One line ending, as text, or the end of the input, as the empty text.
    pub fn parse_break_or_eof<'a>(&mut self, s: &'a str) -> (r: Result<(&'a str, String), ParseError<'a>>)
        requires
            grammar::line_break(old(self)@, s@).ok() ==> old(self)@.has_room_for_line_ending(
                grammar::line_ending_len(s@),
            ),
        ensures
            final(self)@ == grammar::break_or_eof(old(self)@, s@).cursor,
            agrees(r, grammar::break_or_eof(old(self)@, s@), s@),
            r matches Err(e) ==> e@ == (Failure { input: s@, code: ErrorKind::Eof }),
    {
        match self.parse_soft_break(s) {
            Ok(found) => Ok(found),
            Err(_) => match take_end(s) {
                Ok((rest, end)) => {
                    assert(s@.skip(0) =~= s@);
                    assert(end@ =~= Seq::<char>::empty());
                    Ok((rest, String::from_str(end)))
                },
                Err(_) => Err(ParseError::new(s, ErrorKind::Eof)),
            },
        }
    }

    /// One line ending or one non-break character, as text.
    pub fn parse_char<'a>(&mut self, s: &'a str) -> (r: Result<(&'a str, String), ParseError<'a>>)
        requires
            grammar::line_break(old(self)@, s@).ok() ==> old(self)@.has_room_for_line_ending(
                grammar::line_ending_len(s@),
            ),
            grammar::line_ending_len(s@) == 0 && grammar::one_text(
                old(self)@,
                s@,
                CharClass::NonBreak,
            ).ok() ==> old(self)@.has_room_for_chars(1),
        ensures
            final(self)@ == grammar::any_char(old(self)@, s@).cursor,
            agrees(r, grammar::any_char(old(self)@, s@), s@),
            r matches Err(e) ==> e@ == no_such_char(s@),
    {
        match self.parse_soft_break(s) {
            Ok(found) => Ok(found),
            Err(_) => self.parse_nbr_char(s),
        }
    }

    /// A run of non-break characters, one at least.
    pub fn parse_nbr_string<'a>(&mut self, s: &'a str) -> (r: Result<(&'a str, String), ParseError<'a>>)
        requires
            old(self)@.has_room_for_chars(grammar::run_len(s@, CharClass::NonBreak)),
        ensures
            final(self)@ == grammar::run(old(self)@, s@, CharClass::NonBreak).cursor,
            agrees(r, grammar::run(old(self)@, s@, CharClass::NonBreak), s@),
            r matches Err(e) ==> e@ == no_such_char(s@),
    {
        let end = self.class_run(CharClass::NonBreak, s);
        if end.any {
            Ok((end.rest, String::from_str(front(s, end.rest))))
        } else {
            Err(end.stop)
        }
    }

    /// A run of line endings and non-break characters, one at least.
    pub fn parse_string<'a>(&mut self, s: &'a str) -> (r: Result<(&'a str, String), ParseError<'a>>)
        requires
            old(self)@.has_room(s@.len()),
        ensures
            final(self)@ == grammar::string(old(self)@, s@).cursor,
            agrees(r, grammar::string(old(self)@, s@), s@),
            r matches Err(e) ==> e@ == no_such_char(s@),
    {
        let mut rest = s;
        let mut any = false;
        loop
            invariant
                old(self)@.has_room(s@.len()),
                self@.has_room(rest@.len()),
                is_suffix(rest@, s@),
                grammar::text_end(old(self)@, s@) == grammar::text_end(self@, rest@),
                any == (rest@.len() < s@.len()),
                !any ==> rest@ == s@ && self@ == old(self)@,
            decreases rest@.len(),
        {
            match self.parse_char(rest) {
                Ok((behind, _)) => {
                    proof {
                        lemma_suffix_of_suffix(behind@, rest@, s@);
                    }
                    rest = behind;
                    any = true;
                },
                Err(stop) => {
                    if any {
                        return Ok((rest, String::from_str(front(s, rest))));
                    } else {
                        return Err(stop);
                    }
                },
            }
        }
    }

    /// A run of plain characters, one at least.
    pub fn parse_nsp_string<'a>(&mut self, s: &'a str) -> (r: Result<(&'a str, String), ParseError<'a>>)
        requires
            old(self)@.has_room_for_chars(grammar::run_len(s@, CharClass::Plain)),
        ensures
            final(self)@ == grammar::run(old(self)@, s@, CharClass::Plain).cursor,
            agrees(r, grammar::run(old(self)@, s@, CharClass::Plain), s@),
            r matches Err(e) ==> e@ == no_plain_char(s@),
    {
        let end = self.class_run(CharClass::Plain, s);
        if end.any {
            Ok((end.rest, String::from_str(front(s, end.rest))))
        } else {
            Err(end.stop)
        }
    }
}

/// Whether `t` ends in a space or in a line ending.
pub fn ends_blank(t: &str) -> (blank: bool)
    ensures
        blank == grammar::blank_behind(t@),
{
    let n = t.unicode_len();
    if n == 0 {
        false
    } else {
        let last = t.get_char(n - 1);
        last == ' ' || last == '\n'
    }
}

/// The failure of a rule of the inline or the block grammar.
pub open spec fn no_match(s: Seq<char>) -> Failure {
    Failure { input: s, code: ErrorKind::Char }
}

impl Parser {
    /// One special character as a text node, which spans from where the
    /// innermost open transaction began.
    pub fn parse_sp_symbol<'a>(&mut self, s: &'a str) -> (r: Result<(&'a str, ASTNode), ParseError<'a>>)
        requires
            grammar::one(old(self)@, s@, CharClass::Special).ok() ==> old(self)@.has_room_for_chars(1),
        ensures
            final(self)@ == grammar::symbol(old(self)@, s@).cursor,
            agrees(r, grammar::symbol(old(self)@, s@), s@),
            r matches Err(e) ==> e@ == no_match(s@),
    {
        match self.parse_sp_char(s) {
            Ok((remain, symbol)) => {
                let text = front(s, remain);
                assert(text@ =~= seq![symbol]);
                let node = ASTNode::new(ASTElm::new_text(text, self.pos_get_range()));
                Ok((remain, node))
            },
            Err(_) => Err(ParseError::new(s, ErrorKind::Char)),
        }
    }

    /// One asterisk as a text node, which spans from where the innermost
    /// open transaction began.
    pub fn parse_sp_asterisk<'a>(&mut self, s: &'a str) -> (r: Result<(&'a str, ASTNode), ParseError<'a>>)
        requires
            grammar::one(old(self)@, s@, CharClass::Only('*')).ok() ==> old(self)@.has_room_for_chars(1),
        ensures
            final(self)@ == grammar::asterisk(old(self)@, s@).cursor,
            agrees(r, grammar::asterisk(old(self)@, s@), s@),
            r matches Err(e) ==> e@ == no_match(s@),
    {
        match self.parse_asterisk_char(s) {
            Ok((remain, symbol)) => {
                let text = front(s, remain);
                assert(text@ =~= seq![symbol]);
                let node = ASTNode::new(ASTElm::new_text(text, self.pos_get_range()));
                Ok((remain, node))
            },
            Err(_) => Err(ParseError::new(s, ErrorKind::Char)),
        }
    }

    /// Whether a space or a line ending is next. The cursor stays where it is.
    fn blank_ahead(&mut self, s: &str) -> (blank: bool)
        ensures
            final(self)@ == old(self)@,
            blank == grammar::blank_ahead(s@),
    {
        let was_locked = self.pos_isolate();
        let blank = match self.parse_soft_break(s) {
            Ok(_) => true,
            Err(_) => self.parse_space_string(s).is_ok(),
        };
        self.pos_release(was_locked);
        blank
    }

    /// A run of plain characters as a text node, in a transaction of its own.
    fn parse_text_run<'a>(&mut self, s: &'a str) -> (r: Result<(&'a str, ASTNode), ParseError<'a>>)
        requires
            old(self)@.has_room(s@.len()),
        ensures
            final(self)@ == settled(grammar::text_run(old(self)@.begin(), s@)).cursor,
            agrees(r, settled(grammar::text_run(old(self)@.begin(), s@)), s@),
            sound(old(self)@, s@, settled(grammar::text_run(old(self)@.begin(), s@))),
            ends_in_line(old(self)@, settled(grammar::text_run(old(self)@.begin(), s@))),
            fails_clean(old(self)@, settled(grammar::text_run(old(self)@.begin(), s@))),
    {
        proof {
            lemma_run_len_bound(s@, CharClass::Plain);
        }
        self.pos_begin_transaction();
        match self.parse_nsp_string(s) {
            Ok((remain, text)) => {
                let node = ASTNode::new(ASTElm::new_text(text.as_str(), self.pos_get_range()));
                self.pos_commit();
                proof {
                    lemma_begin_then_close(old(self)@, true);
                }
                Ok((remain, node))
            },
            Err(e) => {
                self.pos_rollback();
                proof {
                    lemma_begin_then_close(old(self)@, false);
                }
                Err(e)
            },
        }
    }
}

impl Parser {
    /// An inline construct that is not a stray symbol: a text run or an
    /// emphasis, each in a transaction of its own.
    pub fn parse_inline_syntax<'a>(&mut self, s: &'a str) -> (r: Result<(&'a str, ASTNode), ParseError<'a>>)
        requires
            old(self)@.has_room(s@.len()),
        ensures
            final(self)@ == grammar::inline_syntax(old(self)@, s@).cursor,
            agrees(r, grammar::inline_syntax(old(self)@, s@), s@),
            r matches Err(e) ==> e@ == no_match(s@),
            sound(old(self)@, s@, grammar::inline_syntax(old(self)@, s@)),
            ends_in_line(old(self)@, grammar::inline_syntax(old(self)@, s@)),
        decreases s@.len(), 2nat,
    {
        match self.parse_text_run(s) {
            Ok(found) => Ok(found),
            Err(_) => {
                self.pos_begin_transaction();
                let found = self.parse_emphasis(s);
                self.pos_end_transaction(found.is_ok());
                match found {
                    Ok(found) => Ok(found),
                    Err(_) => Err(ParseError::new(s, ErrorKind::Char)),
                }
            },
        }
    }

    /// An emphasis: an asterisk with no space or line ending behind it, one
    /// or more inline constructs or soft breaks, and an asterisk with no
    /// space or line ending in front of it. It runs in a transaction of its
    /// own; its node spans from where the enclosing one began and holds as
    /// raw value all that was consumed.
    pub fn parse_emphasis<'a>(&mut self, s: &'a str) -> (r: Result<(&'a str, ASTNode), ParseError<'a>>)
        requires
            old(self)@.has_room(s@.len()),
        ensures
            final(self)@ == grammar::emphasis(old(self)@, s@).cursor,
            agrees(r, grammar::emphasis(old(self)@, s@), s@),
            r matches Err(e) ==> e@ == no_match(s@),
            sound(old(self)@, s@, grammar::emphasis(old(self)@, s@)),
            ends_in_line(old(self)@, grammar::emphasis(old(self)@, s@)),
        decreases s@.len(), 1nat,
    {
        self.pos_begin_transaction();
        let inner = match self.single_char('*', s) {
            Ok((inner, _)) => inner,
            Err(_) => {
                self.pos_rollback();
                proof {
                    lemma_emphasis_sound(old(self)@, s@);
                }
                return Err(ParseError::new(s, ErrorKind::Char));
            },
        };
        if self.blank_ahead(inner) {
            self.pos_rollback();
            proof {
                lemma_emphasis_sound(old(self)@, s@);
            }
            return Err(ParseError::new(s, ErrorKind::Char));
        }
        let (rest, nodes) = self.parse_emphasis_body(inner);
        proof {
            lemma_emphasis_sound(old(self)@, s@);
        }
        if nodes.len() == 0 || ends_blank(front(inner, rest)) {
            self.pos_rollback();
            return Err(ParseError::new(s, ErrorKind::Char));
        }
        match self.single_char('*', rest) {
            Ok((remain, _)) => {
                self.pos_commit();
                let mut node = ASTNode::new(
                    ASTElm::new_emphasis("", front(s, remain), self.pos_get_range()),
                );
                node.append_node_from_vec(nodes);
                proof {
                    reveal_strlit("");
                    assert(""@ =~= Seq::<char>::empty());
                    assert(node@.children =~= trees(nodes@));
                }
                Ok((remain, node))
            },
            Err(_) => {
                self.pos_rollback();
                Err(ParseError::new(s, ErrorKind::Char))
            },
        }
    }

    /// One item of an emphasis: an inline construct or a soft break, each in
    /// a transaction of its own.
    fn parse_emphasis_item<'a>(&mut self, s: &'a str) -> (r: Result<(&'a str, ASTNode), ParseError<'a>>)
        requires
            old(self)@.has_room(s@.len()),
        ensures
            final(self)@ == grammar::emphasis_item(old(self)@, s@).cursor,
            agrees(r, grammar::emphasis_item(old(self)@, s@), s@),
            sound(old(self)@, s@, grammar::emphasis_item(old(self)@, s@)),
        decreases s@.len(), 3nat,
    {
        proof {
            lemma_begin(old(self)@);
        }
        self.pos_begin_transaction();
        let first = self.parse_inline_syntax(s);
        proof {
            lemma_close(old(self)@, self@, first is Ok);
        }
        self.pos_end_transaction(first.is_ok());
        match first {
            Ok(found) => Ok(found),
            Err(_) => {
                let ghost retry = self@;
                proof {
                    lemma_begin(retry);
                }
                self.pos_begin_transaction();
                let second = self.parse_soft_break_node(s);
                proof {
                    lemma_close(retry, self@, second is Ok);
                }
                self.pos_end_transaction(second.is_ok());
                second
            },
        }
    }

    /// The items of an emphasis, as many as there are.
    fn parse_emphasis_body<'a>(&mut self, s: &'a str) -> (r: (&'a str, Vec<ASTNode>))
        requires
            old(self)@.has_room(s@.len()),
        ensures
            final(self)@ == grammar::emphasis_body(old(self)@, s@).cursor,
            r.0@ == grammar::emphasis_body(old(self)@, s@).rest,
            trees(r.1@) == grammar::emphasis_body(old(self)@, s@).nodes,
            sound_many(old(self)@, s@, grammar::emphasis_body(old(self)@, s@)),
        decreases s@.len(), 4nat,
    {
        let mut nodes: Vec<ASTNode> = Vec::new();
        let mut rest = s;
        loop
            invariant
                is_suffix(rest@, s@),
                old(self)@.has_room(s@.len()),
                reach(old(self)@, self@, s@.len() - rest@.len()),
                self@.saved == old(self)@.saved,
                self@.locked == old(self)@.locked,
                old(self)@.locked ==> self@ == old(self)@,
                forward(old(self)@, self@),
                old(self)@.ordered() && !old(self)@.locked ==> all_within(
                    trees(nodes@),
                    old(self)@.anchor(),
                    self@.current,
                ),
                ({
                    let whole = grammar::emphasis_body(old(self)@, s@);
                    let more = grammar::emphasis_body(self@, rest@);
                    &&& whole.cursor == more.cursor
                    &&& whole.rest == more.rest
                    &&& whole.nodes =~= trees(nodes@) + more.nodes
                }),
            decreases rest@.len(),
        {
            let ghost before = self@;
            let ghost gathered = trees(nodes@);
            match self.parse_emphasis_item(rest) {
                Ok((behind, node)) => {
                    proof {
                        lemma_suffix_of_suffix(behind@, rest@, s@);
                    }
                    nodes.push(node);
                    rest = behind;
                    proof {
                        assert(trees(nodes@) =~= gathered.push(node@));
                        if old(self)@.ordered() && !old(self)@.locked {
                            lemma_gather(
                                gathered,
                                node@,
                                old(self)@.anchor(),
                                before.current,
                                self@.current,
                            );
                        }
                    }
                },
                Err(_) => {
                    proof {
                        assert(trees(nodes@) + Seq::<Tree>::empty() =~= trees(nodes@));
                    }
                    return (rest, nodes);
                },
            }
        }
    }

    /// An inline construct: a text run or an emphasis, else one special
    /// character as text; each alternative in a transaction of its own.
    pub fn parse_inline<'a>(&mut self, s: &'a str) -> (r: Result<(&'a str, ASTNode), ParseError<'a>>)
        requires
            old(self)@.has_room(s@.len()),
        ensures
            final(self)@ == grammar::inline(old(self)@, s@).cursor,
            agrees(r, grammar::inline(old(self)@, s@), s@),
            r matches Err(e) ==> e@ == no_match(s@),
            sound(old(self)@, s@, grammar::inline(old(self)@, s@)),
            ends_in_line(old(self)@, grammar::inline(old(self)@, s@)),
            fails_clean(old(self)@, grammar::inline(old(self)@, s@)),
    {
        reveal(grammar::inline);
        proof {
            lemma_begin(old(self)@);
        }
        self.pos_begin_transaction();
        let first = self.parse_inline_syntax(s);
        proof {
            lemma_close(old(self)@, self@, first is Ok);
        }
        self.pos_end_transaction(first.is_ok());
        match first {
            Ok(found) => Ok(found),
            Err(_) => {
                let ghost retry = self@;
                proof {
                    lemma_begin(retry);
                }
                self.pos_begin_transaction();
                let second = self.parse_sp_symbol(s);
                proof {
                    lemma_close(retry, self@, second is Ok);
                }
                self.pos_end_transaction(second.is_ok());
                match second {
                    Ok(found) => Ok(found),
                    Err(_) => Err(ParseError::new(s, ErrorKind::Char)),
                }
            },
        }
    }
}

/// The heading level for a number of pound signs.
pub fn heading_level(pounds: usize) -> (level: ASTMetaData)
    ensures
        level == grammar::level_of(pounds as nat),
{
    if pounds == 1 {
        ASTMetaData::H1
    } else if pounds == 2 {
        ASTMetaData::H2
    } else if pounds == 3 {
        ASTMetaData::H3
    } else if pounds == 4 {
        ASTMetaData::H4
    } else if pounds == 5 {
        ASTMetaData::H5
    } else if pounds == 6 {
        ASTMetaData::H6
    } else {
        ASTMetaData::Nil
    }
}

impl Parser {
    /// Inline constructs, as many as there are.
    fn parse_inlines(&mut self, s: &str) -> (nodes: Vec<ASTNode>)
        requires
            old(self)@.has_room(s@.len()),
        ensures
            final(self)@ == grammar::inlines(old(self)@, s@).cursor,
            trees(nodes@) == grammar::inlines(old(self)@, s@).nodes,
            sound_many(old(self)@, s@, grammar::inlines(old(self)@, s@)),
            stays_in_line(old(self)@, final(self)@),
    {
        let mut nodes: Vec<ASTNode> = Vec::new();
        let mut rest = s;
        loop
            invariant
                is_suffix(rest@, s@),
                old(self)@.has_room(s@.len()),
                reach(old(self)@, self@, s@.len() - rest@.len()),
                self@.saved == old(self)@.saved,
                self@.locked == old(self)@.locked,
                old(self)@.locked ==> self@ == old(self)@,
                forward(old(self)@, self@),
                stays_in_line(old(self)@, self@),
                old(self)@.ordered() && !old(self)@.locked ==> all_within(
                    trees(nodes@),
                    old(self)@.anchor(),
                    self@.current,
                ),
                ({
                    let whole = grammar::inlines(old(self)@, s@);
                    let more = grammar::inlines(self@, rest@);
                    &&& whole.cursor == more.cursor
                    &&& whole.rest == more.rest
                    &&& whole.nodes =~= trees(nodes@) + more.nodes
                }),
            decreases rest@.len(),
        {
            let ghost gathered = trees(nodes@);
            let ghost before = self@;
            match self.parse_inline(rest) {
                Ok((behind, node)) => {
                    proof {
                        lemma_suffix_of_suffix(behind@, rest@, s@);
                    }
                    nodes.push(node);
                    rest = behind;
                    proof {
                        assert(trees(nodes@) =~= gathered.push(node@));
                        if old(self)@.ordered() && !old(self)@.locked {
                            lemma_gather(
                                gathered,
                                node@,
                                old(self)@.anchor(),
                                before.current,
                                self@.current,
                            );
                        }
                    }
                },
                Err(_) => {
                    proof {
                        assert(trees(nodes@) + Seq::<Tree>::empty() =~= trees(nodes@));
                    }
                    return nodes;
                },
            }
        }
    }

    /// What opens a header: up to three spaces, one to six pound signs, one
    /// or more spaces. Gives the number of pound signs. What was consumed
    /// stays consumed where the rule fails.
    fn parse_header_prefix<'a>(&mut self, s: &'a str) -> (r: Result<(&'a str, usize), ParseError<'a>>)
        requires
            old(self)@.has_room(s@.len()),
        ensures
            final(self)@ == grammar::header_prefix(old(self)@, s@).cursor,
            r is Ok <==> grammar::header_prefix(old(self)@, s@).ok(),
            r is Ok <==> grammar::starts_header(s@),
            r matches Ok((rest, pounds)) ==> {
                &&& rest@ == grammar::header_prefix(old(self)@, s@).rest()
                &&& pounds == grammar::header_prefix(old(self)@, s@).value()
                &&& is_suffix(rest@, s@)
                &&& rest@.len() + 2 <= s@.len()
                &&& 1 <= pounds <= 6
            },
            steady(old(self)@, s@, grammar::header_prefix(old(self)@, s@)),
            forward(old(self)@, final(self)@),
            ends_in_line(old(self)@, grammar::header_prefix(old(self)@, s@)),
    {
        proof {
            lemma_run_len_bound(s@, CharClass::Only(' '));
        }
        let (behind_indent, _) = self.class_run_up_to(CharClass::Only(' '), 3, s);
        proof {
            lemma_run_len_bound(behind_indent@, CharClass::Only('#'));
        }
        let (behind_pounds, pounds) = self.class_run_up_to(CharClass::Only('#'), 6, behind_indent);
        if pounds < 1 {
            return Err(ParseError::new(s, ErrorKind::Char));
        }
        proof {
            lemma_run_len_bound(behind_pounds@, CharClass::Only(' '));
        }
        let gap = self.class_run(CharClass::Only(' '), behind_pounds);
        if !gap.any {
            return Err(ParseError::new(s, ErrorKind::Char));
        }
        proof {
            lemma_suffix_of_suffix(behind_pounds@, behind_indent@, s@);
            lemma_suffix_of_suffix(gap.rest@, behind_pounds@, s@);
        }
        Ok((gap.rest, pounds))
    }

    /// Whether a line ending or the end of the input is next. The cursor
    /// stays where it is.
    fn break_or_eof_ahead(&mut self, s: &str) -> (found: bool)
        ensures
            final(self)@ == old(self)@,
            found == (grammar::line_ending_len(s@) > 0 || s@.len() == 0),
    {
        let was_locked = self.pos_isolate();
        let found = self.parse_break_or_eof(s).is_ok();
        self.pos_release(was_locked);
        found
    }

    /// The run of non-break characters at the front of `s`, found without
    /// moving the cursor.
    fn scan_nbr_string<'a>(&mut self, s: &'a str) -> (r: Result<(&'a str, String), ParseError<'a>>)
        ensures
            final(self)@ == old(self)@,
            agrees(r, grammar::run(old(self)@.with_lock(true), s@, CharClass::NonBreak), s@),
            r matches Err(e) ==> e@ == no_such_char(s@),
    {
        let was_locked = self.pos_isolate();
        let found = self.parse_nbr_string(s);
        self.pos_release(was_locked);
        found
    }
}

impl Parser {
    /// A header: up to three spaces, one to six pound signs, one or more
    /// spaces, the text up to the end of the line, pound signs if any
    /// follow, and then a line ending or the end of the input, which stays
    /// unconsumed. The text is found without moving the cursor and then
    /// parsed into inline constructs, which moves it. The rule runs in a
    /// transaction of its own; its node spans from where the enclosing one
    /// began and holds as raw value all that was consumed.
    pub fn parse_headers<'a>(&mut self, s: &'a str) -> (r: Result<(&'a str, ASTNode), ParseError<'a>>)
        requires
            old(self)@.has_room(s@.len()),
        ensures
            final(self)@ == grammar::headers(old(self)@, s@).cursor,
            agrees(r, grammar::headers(old(self)@, s@), s@),
            r matches Err(e) ==> e@ == no_match(s@),
            sound(old(self)@, s@, grammar::headers(old(self)@, s@)),
    {
        reveal(grammar::headers);
        self.pos_begin_transaction();
        let (line, pounds) = match self.parse_header_prefix(s) {
            Ok(found) => found,
            Err(_) => {
                self.pos_rollback();
                proof {
                    lemma_headers_sound(old(self)@, s@);
                }
                return Err(ParseError::new(s, ErrorKind::Char));
            },
        };
        let (behind, text) = match self.scan_nbr_string(line) {
            Ok(found) => found,
            Err(_) => {
                self.pos_rollback();
                proof {
                    lemma_headers_sound(old(self)@, s@);
                }
                return Err(ParseError::new(s, ErrorKind::Char));
            },
        };
        proof {
            lemma_run_len_bound(line@, CharClass::NonBreak);
        }
        let inline_node = self.parse_inlines(text.as_str());
        proof {
            lemma_headers_sound(old(self)@, s@);
            lemma_run_len_bound(behind@, CharClass::Only('#'));
            lemma_suffix_of_suffix(behind@, line@, s@);
        }
        let tail = self.class_run(CharClass::Only('#'), behind);
        let remain = tail.rest;
        proof {
            lemma_suffix_of_suffix(remain@, behind@, s@);
        }
        if !self.break_or_eof_ahead(remain) {
            self.pos_rollback();
            return Err(ParseError::new(s, ErrorKind::Char));
        }
        self.pos_commit();
        let mut node = ASTNode::new(
            ASTElm::new_headers(
                heading_level(pounds),
                "",
                front(s, remain),
                self.pos_get_previous_line_range(),
            ),
        );
        node.append_node_from_vec(inline_node);
        proof {
            reveal_strlit("");
            assert(""@ =~= Seq::<char>::empty());
            assert(node@.children =~= trees(inline_node@));
        }
        Ok((remain, node))
    }

    /// What stands between two lines of a paragraph: the line ending at the
    /// front of `s`, where a single one is there and behind it a line that
    /// does not open a header; else nothing, and all of `s` is left over.
    /// The cursor stays where it is.
    pub fn parse_separator<'a>(&mut self, s: &'a str) -> (r: Result<(&'a str, String), ParseError<'a>>)
        ensures
            final(self)@ == old(self)@,
            r is Ok,
            agrees(r, grammar::separator(old(self)@, s@), s@),
    {
        let was_locked = self.pos_isolate();
        let ghost locked = self@;
        proof {
            lemma_breaks(locked, s@, grammar::hard_break_limit());
            assert(s@.skip(0) =~= s@);
            lemma_run_len_bound(s@.skip(grammar::line_ending_len(s@) as int), CharClass::NonBreak);
        }
        // a hard break ends the block
        if self.parse_hard_break(s).is_ok() {
            self.pos_release(was_locked);
            return Ok((s, String::new()));
        }
        // so does a line ending with no line behind it, and the end of the input
        match self.parse_break_or_eof(s) {
            Ok((behind, _)) => {
                if self.parse_nbr_string(behind).is_err() {
                    self.pos_release(was_locked);
                    return Ok((s, String::new()));
                }
            },
            Err(_) => {},
        }
        match self.parse_break_or_eof(s) {
            Ok((remain, br)) => {
                // and so does a header on the next line
                let header = self.parse_header_prefix(remain).is_ok();
                self.pos_release(was_locked);
                if header {
                    Ok((s, String::new()))
                } else {
                    Ok((remain, br))
                }
            },
            Err(_) => {
                self.pos_release(was_locked);
                Ok((s, String::new()))
            },
        }
    }

    /// The text of the paragraph at the front of `s`: its lines with the
    /// line endings between them, up to a hard break, a header, the end of
    /// the input, or a character that no line holds. The cursor stays where
    /// it is.
    pub fn parse_separate<'a>(&mut self, s: &'a str) -> (r: Result<(&'a str, String), ParseError<'a>>)
        ensures
            final(self)@ == old(self)@,
            agrees(r, grammar::separate(old(self)@, s@), s@),
            r matches Err(e) ==> e@ == no_such_char(s@),
    {
        let was_locked = self.pos_isolate();
        let mut rest = s;
        let mut any = false;
        let ghost mut taken: nat = 0;
        proof {
            assert(s@.skip(0) =~= s@);
        }
        loop
            invariant
                self@ == old(self)@.with_lock(true),
                was_locked == old(self)@.locked,
                taken <= s@.len(),
                rest@ == s@.skip(taken as int),
                any == (taken > 0),
                grammar::block_text_len(s@) == taken + grammar::block_text_len(rest@),
            decreases rest@.len(),
        {
            proof {
                lemma_run_len_bound(rest@, CharClass::NonBreak);
                lemma_block_text_len_bound(rest@);
            }
            match self.parse_nbr_string(rest) {
                Ok((behind, _)) => {
                    let ghost n = grammar::run_len(rest@, CharClass::NonBreak);
                    let ghost e = grammar::line_ending_len(behind@);
                    proof {
                        lemma_block_text_len_bound(behind@);
                        lemma_run_len_bound(behind@, CharClass::NonBreak);
                    }
                    match self.parse_separator(behind) {
                        Ok((next, _)) => {
                            proof {
                                if grammar::paragraph_continues(behind@) {
                                    assert(rest@.skip(n as int).skip(e as int) =~= s@.skip(
                                        (taken + n + e) as int,
                                    ));
                                    taken = taken + n + e;
                                } else {
                                    assert(rest@.skip(n as int) =~= s@.skip((taken + n) as int));
                                    taken = taken + n;
                                }
                            }
                            rest = next;
                            any = true;
                        },
                        Err(e) => {
                            self.pos_release(was_locked);
                            return Err(e);
                        },
                    }
                },
                Err(stop) => {
                    self.pos_release(was_locked);
                    if any {
                        proof {
                            lemma_block_text_len_bound(s@);
                        }
                        return Ok((rest, String::from_str(front(s, rest))));
                    } else {
                        proof {
                            assert(s@.skip(0) =~= s@);
                        }
                        return Err(stop);
                    }
                },
            }
        }
    }

    /// One item of a paragraph: an inline construct, a soft break, or an
    /// asterisk; the soft break and the asterisk each in a transaction of
    /// its own.
    fn parse_paragraph_item<'a>(&mut self, s: &'a str) -> (r: Result<(&'a str, ASTNode), ParseError<'a>>)
        requires
            old(self)@.has_room(s@.len()),
        ensures
            final(self)@ == grammar::paragraph_item(old(self)@, s@).cursor,
            agrees(r, grammar::paragraph_item(old(self)@, s@), s@),
            sound(old(self)@, s@, grammar::paragraph_item(old(self)@, s@)),
    {
        reveal(grammar::paragraph_item);
        match self.parse_inline(s) {
            Ok(found) => Ok(found),
            Err(_) => {
                let ghost second_try = self@;
                proof {
                    lemma_begin(second_try);
                }
                self.pos_begin_transaction();
                let second = self.parse_soft_break_node(s);
                proof {
                    lemma_close(second_try, self@, second is Ok);
                }
                self.pos_end_transaction(second.is_ok());
                match second {
                    Ok(found) => Ok(found),
                    Err(_) => {
                        let ghost third_try = self@;
                        proof {
                            lemma_begin(third_try);
                        }
                        self.pos_begin_transaction();
                        let third = self.parse_sp_asterisk(s);
                        proof {
                            lemma_close(third_try, self@, third is Ok);
                        }
                        self.pos_end_transaction(third.is_ok());
                        third
                    },
                }
            },
        }
    }

    /// The items of a paragraph, as many as there are.
    fn parse_paragraph_items(&mut self, s: &str) -> (nodes: Vec<ASTNode>)
        requires
            old(self)@.has_room(s@.len()),
        ensures
            final(self)@ == grammar::paragraph_items(old(self)@, s@).cursor,
            trees(nodes@) == grammar::paragraph_items(old(self)@, s@).nodes,
            sound_many(old(self)@, s@, grammar::paragraph_items(old(self)@, s@)),
    {
        let mut nodes: Vec<ASTNode> = Vec::new();
        let mut rest = s;
        loop
            invariant
                is_suffix(rest@, s@),
                old(self)@.has_room(s@.len()),
                reach(old(self)@, self@, s@.len() - rest@.len()),
                self@.saved == old(self)@.saved,
                self@.locked == old(self)@.locked,
                old(self)@.locked ==> self@ == old(self)@,
                forward(old(self)@, self@),
                old(self)@.ordered() && !old(self)@.locked ==> all_within(
                    trees(nodes@),
                    old(self)@.anchor(),
                    self@.current,
                ),
                ({
                    let whole = grammar::paragraph_items(old(self)@, s@);
                    let more = grammar::paragraph_items(self@, rest@);
                    &&& whole.cursor == more.cursor
                    &&& whole.rest == more.rest
                    &&& whole.nodes =~= trees(nodes@) + more.nodes
                }),
            decreases rest@.len(),
        {
            let ghost gathered = trees(nodes@);
            let ghost before = self@;
            match self.parse_paragraph_item(rest) {
                Ok((behind, node)) => {
                    proof {
                        lemma_suffix_of_suffix(behind@, rest@, s@);
                    }
                    nodes.push(node);
                    rest = behind;
                    proof {
                        assert(trees(nodes@) =~= gathered.push(node@));
                        if old(self)@.ordered() && !old(self)@.locked {
                            lemma_gather(
                                gathered,
                                node@,
                                old(self)@.anchor(),
                                before.current,
                                self@.current,
                            );
                        }
                    }
                },
                Err(_) => {
                    proof {
                        assert(trees(nodes@) + Seq::<Tree>::empty() =~= trees(nodes@));
                    }
                    return nodes;
                },
            }
        }
    }

    /// A paragraph: the text of the block, found without moving the cursor,
    /// and then parsed into its items, which moves it. The node spans from
    /// where the innermost open transaction began and holds the text as
    /// raw value.
    pub fn parse_paragraph<'a>(&mut self, s: &'a str) -> (r: Result<(&'a str, ASTNode), ParseError<'a>>)
        requires
            old(self)@.has_room(s@.len()),
        ensures
            final(self)@ == grammar::paragraph(old(self)@, s@).cursor,
            agrees(r, grammar::paragraph(old(self)@, s@), s@),
            r matches Err(e) ==> e@ == no_match(s@),
            sound(old(self)@, s@, grammar::paragraph(old(self)@, s@)),
    {
        reveal(grammar::paragraph);
        proof {
            lemma_block_text_len_bound(s@);
        }
        match self.parse_separate(s) {
            Ok((remain, raw_value)) => {
                let child_node = self.parse_paragraph_items(raw_value.as_str());
                proof {
                    lemma_paragraph_sound(old(self)@, s@);
                }
                let mut node = ASTNode::new(
                    ASTElm::new_paragraph("", raw_value.as_str(), self.pos_get_range()),
                );
                node.append_node_from_vec(child_node);
                proof {
                    reveal_strlit("");
                    assert(""@ =~= Seq::<char>::empty());
                    assert(node@.children =~= trees(child_node@));
                }
                Ok((remain, node))
            },
            Err(_) => {
                proof {
                    lemma_paragraph_sound(old(self)@, s@);
                }
                Err(ParseError::new(s, ErrorKind::Char))
            },
        }
    }
}

impl Parser {
    /// A block: a header, else a paragraph, else a line ending and the
    /// block behind it; each alternative in a transaction of its own.
    pub fn parse_blocks<'a>(&mut self, s: &'a str) -> (r: Result<(&'a str, ASTNode), ParseError<'a>>)
        requires
            old(self)@.has_room(s@.len()),
        ensures
            final(self)@ == grammar::block(old(self)@, s@).cursor,
            agrees(r, grammar::block(old(self)@, s@), s@),
            r matches Err(e) ==> e@ == (Failure {
                input: grammar::block_stop(s@),
                code: ErrorKind::CrLf,
            }),
            sound(old(self)@, s@, grammar::block(old(self)@, s@)),
        decreases s@.len(),
    {
        reveal_with_fuel(grammar::block, 1);
        proof {
            lemma_begin(old(self)@);
        }
        self.pos_begin_transaction();
        let first = self.parse_headers(s);
        proof {
            lemma_close(old(self)@, self@, first is Ok);
        }
        self.pos_end_transaction(first.is_ok());
        if first.is_ok() {
            return first;
        }
        let ghost second_try = self@;
        proof {
            lemma_begin(second_try);
        }
        self.pos_begin_transaction();
        let second = self.parse_paragraph(s);
        proof {
            lemma_close(second_try, self@, second is Ok);
        }
        self.pos_end_transaction(second.is_ok());
        if second.is_ok() {
            return second;
        }
        // a line ending in front of the block is passed over
        let ghost third_try = self@;
        proof {
            lemma_begin(third_try);
        }
        self.pos_begin_transaction();
        match self.parse_line_break(s) {
            Ok((behind, _)) => {
                let third = self.parse_blocks(behind);
                proof {
                    lemma_close(third_try, self@, third is Ok);
                    match third {
                        Ok((remain, _)) => {
                            lemma_suffix_of_suffix(remain@, behind@, s@);
                        },
                        Err(_) => {},
                    }
                }
                self.pos_end_transaction(third.is_ok());
                third
            },
            Err(e) => {
                proof {
                    lemma_close(third_try, self@, false);
                }
                self.pos_rollback();
                Err(e)
            },
        }
    }

    /// Blocks, each in a transaction of its own, as many as there are.
    fn parse_block_list(&mut self, s: &str) -> (nodes: Vec<ASTNode>)
        requires
            old(self)@.has_room(s@.len()),
        ensures
            final(self)@ == grammar::blocks(old(self)@, s@).cursor,
            trees(nodes@) == grammar::blocks(old(self)@, s@).nodes,
            sound_many(old(self)@, s@, grammar::blocks(old(self)@, s@)),
    {
        let mut nodes: Vec<ASTNode> = Vec::new();
        let mut rest = s;
        loop
            invariant
                is_suffix(rest@, s@),
                old(self)@.has_room(s@.len()),
                reach(old(self)@, self@, s@.len() - rest@.len()),
                self@.saved == old(self)@.saved,
                self@.locked == old(self)@.locked,
                old(self)@.locked ==> self@ == old(self)@,
                forward(old(self)@, self@),
                old(self)@.ordered() && !old(self)@.locked ==> all_within(
                    trees(nodes@),
                    old(self)@.anchor(),
                    self@.current,
                ),
                ({
                    let whole = grammar::blocks(old(self)@, s@);
                    let more = grammar::blocks(self@, rest@);
                    &&& whole.cursor == more.cursor
                    &&& whole.rest == more.rest
                    &&& whole.nodes =~= trees(nodes@) + more.nodes
                }),
            decreases rest@.len(),
        {
            let ghost gathered = trees(nodes@);
            let ghost before = self@;
            proof {
                lemma_begin(before);
            }
            self.pos_begin_transaction();
            let found = self.parse_blocks(rest);
            proof {
                lemma_close(before, self@, found is Ok);
            }
            self.pos_end_transaction(found.is_ok());
            match found {
                Ok((behind, node)) => {
                    proof {
                        lemma_suffix_of_suffix(behind@, rest@, s@);
                    }
                    nodes.push(node);
                    rest = behind;
                    proof {
                        assert(trees(nodes@) =~= gathered.push(node@));
                        if old(self)@.ordered() && !old(self)@.locked {
                            lemma_gather(
                                gathered,
                                node@,
                                old(self)@.anchor(),
                                before.current,
                                self@.current,
                            );
                        }
                    }
                },
                Err(_) => {
                    proof {
                        assert(trees(nodes@) + Seq::<Tree>::empty() =~= trees(nodes@));
                    }
                    return nodes;
                },
            }
        }
    }

    /// A document: `node` made the root, with all of `s` as its raw value,
    /// the blocks of `s` behind the children it has, and the range since
    /// the innermost open transaction began. The blocks are parsed in one
    /// transaction. Input that no block takes in is left out of the tree.
    pub fn parse_document(&mut self, s: &str, node: ASTNode) -> (root: ASTNode)
        requires
            old(self)@.has_room(s@.len()),
        ensures
            final(self)@ == grammar::document(old(self)@, s@, node@).cursor,
            root@ == grammar::document(old(self)@, s@, node@).tree,
            root@.elm.kind == ASTType::Document,
            root@.elm.raw_value == s@,
            final(self)@.saved == old(self)@.saved,
            final(self)@.locked == old(self)@.locked,
            old(self)@.ordered() && !old(self)@.locked && node@.children.len() == 0
                ==> root@.well_ranged(),
    {
        let mut node = node;
        node.set_node_type(ASTType::Document);
        node.set_meta(ASTMetaData::Nil);
        node.set_value(String::new());
        node.set_raw_value(String::from_str(s));
        self.pos_begin_transaction();
        let result = self.parse_block_list(s);
        self.pos_commit();
        node.append_node_from_vec(result);
        node.set_range(self.pos_get_range());
        proof {
            lemma_document_sound(old(self)@, s@, node@);
        }
        node
    }
}

/// Parses `s` from its start into a document whose root is made of `node`.
pub fn md_parse(s: &str, node: ASTNode) -> (root: ASTNode)
    requires
        s@.len() < u32::MAX,
    ensures
        root@ == grammar::parse(s@, node@),
        root@.elm.kind == ASTType::Document,
        root@.elm.raw_value == s@,
        node@.children.len() == 0 ==> root@.well_ranged(),
{
    let mut parser = Parser::new();
    parser.parse_document(s, node)
}

} // verus!
