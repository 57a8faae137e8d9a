use crate::keywords::{build_keyword_table, fnv_map_contents, keyword_map, keyword_token, KeywordTable};
use crate::lex_token::{Token, TokenType};
use crate::lex_token::TextKind;
use crate::scan_spec::{
    block_comment_scan, byte_len, byte_offset, char_at_is, fixed, in_class, is_blank, is_dec_digit,
    is_ident_start, lemma_byte_offset_mono, lex_at, lex_directive, lex_newline, lex_number, lex_quoted,
    lex_slash, lex_verbatim, lex_word, lemma_lexes_prefix_done, lemma_lexes_prefix_push, lexes_prefix, lexes_to, macro_scan, operator, quoted_scan,
    scan_class, skip_blank, spec_next, start_state, indent_tally, text_token, token_fits, utf8_width,
    verbatim_scan, CharClass, Lexeme, ScanState, Step, MAX_SOURCE_BYTES,
};
use vstd::prelude::*;

verus! {

/// Turns GML source into tokens, one at a time.
pub struct Scanner<'a> {
    input: &'a str,
    chars: Vec<char>,
    pos: usize,
    byte_pos: usize,
    line_number: u32,
    column_number: u32,
    keywords: KeywordTable,
}

fn utf8_width_of(c: char) -> (r: usize)
    ensures
        r as int == utf8_width(c),
{
    let v = c as u32;
    if v < 0x80 {
        1
    } else if v < 0x800 {
        2
    } else if v < 0x10000 {
        3
    } else {
        4
    }
}

fn char_in_class(class: CharClass, c: char) -> (r: bool)
    ensures
        r == in_class(class, c),
{
    match class {
        CharClass::Ident => ('a' <= c && c <= 'z') || ('A' <= c && c <= 'Z') || ('0' <= c && c <= '9')
            || c == '_',
        CharClass::Dec => '0' <= c && c <= '9',
        CharClass::Hex => ('0' <= c && c <= '9') || ('a' <= c && c <= 'f') || ('A' <= c && c <= 'F'),
        CharClass::NotNewline => c != '\n',
        CharClass::SpaceOrTab => c == ' ' || c == '\t',
    }
}

/// The characters of `input`, in order, and how many bytes of UTF-8 they take.
fn chars_of(input: &str) -> (r: (Vec<char>, usize))
    ensures
        r.0@ == input@,
        r.1 as int == byte_len(input@) || (r.1 > MAX_SOURCE_BYTES && byte_len(input@) > MAX_SOURCE_BYTES),
{
    let mut v: Vec<char> = Vec::new();
    let mut bytes: usize = 0;
    for c in it: input.chars()
        invariant
            v@ == it.seq().take(it.index() as int),
            bytes <= MAX_SOURCE_BYTES + 4,
            bytes > MAX_SOURCE_BYTES ==> byte_offset(it.seq(), v.len() as int) > MAX_SOURCE_BYTES,
            bytes <= MAX_SOURCE_BYTES ==> bytes as int == byte_offset(it.seq(), v.len() as int),
    {
        proof {
            lemma_byte_offset_mono(it.seq(), v.len() as int, it.index() + 1);
        }
        if bytes <= MAX_SOURCE_BYTES {
            bytes = bytes + utf8_width_of(c);
        }
        v.push(c);
    }
    proof {
        assert(v@ == input@);
    }
    (v, bytes)
}

/// Whether `input` is small enough for the scanner.
pub fn fits_scanner(input: &str) -> (r: bool)
    ensures
        r == (byte_len(input@) <= MAX_SOURCE_BYTES),
{
    let (_, bytes) = chars_of(input);
    bytes <= MAX_SOURCE_BYTES
}

impl<'a> Scanner<'a> {
    /// The characters being scanned.
    pub closed spec fn source(&self) -> Seq<char> {
        self.chars@
    }

    pub closed spec fn state(&self) -> ScanState {
        ScanState { pos: self.pos as int, line: self.line_number as int, col: self.column_number as int }
    }

    pub closed spec fn wf(&self) -> bool {
        &&& self.chars@ == self.input@
        &&& self.pos <= self.chars.len()
        &&& self.byte_pos as int == byte_offset(self.chars@, self.pos as int)
        &&& byte_len(self.chars@) <= MAX_SOURCE_BYTES
        &&& self.column_number <= self.byte_pos
        &&& self.line_number <= self.pos
        &&& fnv_map_contents(self.keywords.map) == keyword_map()
    }

    closed spec fn same_source(&self, other: &Scanner<'a>) -> bool {
        &&& self.input == other.input
        &&& self.chars@ == other.chars@
        &&& self.keywords == other.keywords
    }

    /// `self` is `old` after scanning `tok`, which `step` describes.
    closed spec fn stepped(&self, old: &Scanner<'a>, tok: Token<'a>, step: Step<'a>) -> bool {
        &&& self.wf()
        &&& self.same_source(old)
        &&& token_fits(old.chars@, tok, step)
        &&& self.state() == step.next
        &&& old.pos < self.pos
    }

    proof fn lemma_bounds(&self)
        requires
            self.wf(),
        ensures
            self.pos <= self.byte_pos <= MAX_SOURCE_BYTES,
            self.chars.len() <= MAX_SOURCE_BYTES,
    {
        lemma_byte_offset_mono(self.chars@, 0, self.pos as int);
        lemma_byte_offset_mono(self.chars@, self.pos as int, self.chars.len() as int);
        lemma_byte_offset_mono(self.chars@, 0, self.chars.len() as int);
    }

    pub fn new(input: &'a str) -> (r: Scanner<'a>)
        requires
            byte_len(input@) <= MAX_SOURCE_BYTES,
        ensures
            r.wf(),
            r.source() == input@,
            r.state() == start_state(),
            0 <= r.state().pos <= r.source().len(),
    {
        let (chars, _) = chars_of(input);
        Scanner {
            input,
            chars,
            pos: 0,
            byte_pos: 0,
            line_number: 0,
            column_number: 0,
            keywords: build_keyword_table(),
        }
    }

    fn peek(&self) -> (r: Option<char>)
        requires
            self.wf(),
        ensures
            r == (if self.pos < self.chars.len() { Some(self.chars@[self.pos as int]) } else { None::<char> }),
    {
        if self.pos < self.chars.len() {
            Some(self.chars[self.pos])
        } else {
            None
        }
    }

    /// The character after the next one, if any.
    fn peek_second(&self) -> (r: Option<char>)
        requires
            self.wf(),
        ensures
            r == (if self.pos + 1 < self.chars.len() { Some(self.chars@[self.pos + 1]) } else { None::<char> }),
    {
        proof {
            self.lemma_bounds();
        }
        if self.pos + 1 < self.chars.len() {
            Some(self.chars[self.pos + 1])
        } else {
            None
        }
    }

    /// Consumes the next character.
    fn next_char(&mut self) -> (c: char)
        requires
            old(self).wf(),
            old(self).pos < old(self).chars.len(),
        ensures
            final(self).wf(),
            final(self).same_source(old(self)),
            c == old(self).chars@[old(self).pos as int],
            final(self).pos == old(self).pos + 1,
            final(self).line_number == old(self).line_number,
            final(self).column_number == old(self).column_number,
    {
        let c = self.chars[self.pos];
        proof {
            lemma_byte_offset_mono(self.chars@, self.pos + 1, self.chars.len() as int);
        }
        self.byte_pos = self.byte_pos + utf8_width_of(c);
        self.pos = self.pos + 1;
        c
    }

    /// Byte offset of the next character, or the length of the source at its end.
    fn next_char_boundary(&self) -> (r: usize)
        requires
            self.wf(),
        ensures
            r as int == byte_offset(self.chars@, self.pos as int),
    {
        self.byte_pos
    }

    /// Consumes the next character when it is `char_to_check`.
    fn peek_and_check_consume(&mut self, char_to_check: char) -> (r: bool)
        requires
            old(self).wf(),
        ensures
            final(self).wf(),
            final(self).same_source(old(self)),
            r == char_at_is(old(self).chars@, old(self).pos as int, char_to_check),
            final(self).pos == old(self).pos + if r { 1int } else { 0int },
            final(self).line_number == old(self).line_number,
            final(self).column_number == old(self).column_number,
    {
        if let Some(next_char) = self.peek() {
            let ret = next_char == char_to_check;
            if ret {
                self.next_char();
            }
            ret
        } else {
            false
        }
    }

    fn next_line(&mut self)
        requires
            old(self).wf(),
            old(self).line_number < old(self).pos,
        ensures
            final(self).wf(),
            final(self).same_source(old(self)),
            final(self).pos == old(self).pos,
            final(self).line_number == old(self).line_number + 1,
            final(self).column_number == 0,
    {
        proof {
            self.lemma_bounds();
        }
        self.line_number = self.line_number + 1;
        self.column_number = 0;
    }

    /// A token at the current place; the column then moves on by `size`.
    fn add_multiple_token(&mut self, token_type: TokenType<'a>, size: u32) -> (r: Token<'a>)
        requires
            old(self).wf(),
            old(self).column_number + size <= old(self).byte_pos,
        ensures
            final(self).wf(),
            final(self).same_source(old(self)),
            final(self).pos == old(self).pos,
            final(self).line_number == old(self).line_number,
            final(self).column_number == old(self).column_number + size,
            r == (Token::<'a> {
                token_type,
                line_number: old(self).line_number,
                column_number: old(self).column_number,
            }),
    {
        proof {
            self.lemma_bounds();
        }
        let ret = Token::new(token_type, self.line_number, self.column_number);
        self.column_number = self.column_number + size;
        ret
    }

    fn add_simple_token(&mut self, token_type: TokenType<'a>) -> (r: Token<'a>)
        requires
            old(self).wf(),
            old(self).column_number + 1 <= old(self).byte_pos,
        ensures
            final(self).wf(),
            final(self).same_source(old(self)),
            final(self).pos == old(self).pos,
            final(self).line_number == old(self).line_number,
            final(self).column_number == old(self).column_number + 1,
            r == (Token::<'a> {
                token_type,
                line_number: old(self).line_number,
                column_number: old(self).column_number,
            }),
    {
        self.add_multiple_token(token_type, 1)
    }

    /// Consumes the run of characters of `class`.
    fn consume_class(&mut self, class: CharClass)
        requires
            old(self).wf(),
        ensures
            final(self).wf(),
            final(self).same_source(old(self)),
            final(self).pos == scan_class(old(self).chars@, old(self).pos as int, class),
            old(self).pos <= final(self).pos,
            final(self).line_number == old(self).line_number,
            final(self).column_number == old(self).column_number,
    {
        let ghost s = self.chars@;
        let ghost start = self.pos as int;
        loop
            invariant
                self.wf(),
                self.same_source(old(self)),
                s == self.chars@,
                start <= self.pos,
                scan_class(s, self.pos as int, class) == scan_class(s, start, class),
                self.line_number == old(self).line_number,
                self.column_number == old(self).column_number,
            ensures
                self.wf(),
                self.same_source(old(self)),
                self.pos == scan_class(s, start, class),
                start <= self.pos,
                self.line_number == old(self).line_number,
                self.column_number == old(self).column_number,
            decreases self.chars.len() - self.pos,
        {
            match self.peek() {
                Some(c) => {
                    if char_in_class(class, c) {
                        self.next_char();
                    } else {
                        break;
                    }
                },
                None => {
                    break;
                },
            }
        }
    }

    /// An operator of one character, or two when the second is `d1` or `d2`.
    fn lex_operator(
        &mut self,
        d1: char,
        t1: TokenType<'a>,
        d2: char,
        t2: TokenType<'a>,
        single: TokenType<'a>,
    ) -> (r: Token<'a>)
        requires
            old(self).wf(),
            old(self).pos < old(self).chars.len(),
        ensures
            final(self).stepped(old(self), r, operator(old(self).chars@, old(self).state(), d1, t1, d2, t2, single)),
    {
        let ghost s = self.chars@;
        let ghost i = self.pos as int;
        self.next_char();
        if self.peek_and_check_consume(d1) {
            proof {
                lemma_byte_offset_mono(s, i, i + 2);
            }
            self.add_multiple_token(t1, 2)
        } else if self.peek_and_check_consume(d2) {
            proof {
                lemma_byte_offset_mono(s, i, i + 2);
            }
            self.add_multiple_token(t2, 2)
        } else {
            proof {
                lemma_byte_offset_mono(s, i, i + 1);
            }
            self.add_simple_token(single)
        }
    }

    /// A token of one character that needs no look-ahead.
    fn lex_single(&mut self, token_type: TokenType<'a>) -> (r: Token<'a>)
        requires
            old(self).wf(),
            old(self).pos < old(self).chars.len(),
        ensures
            final(self).stepped(old(self), r, fixed(old(self).state(), token_type, 1)),
    {
        let ghost i = self.pos as int;
        self.next_char();
        proof {
            lemma_byte_offset_mono(self.chars@, i, i + 1);
        }
        self.add_simple_token(token_type)
    }

    /// A token of two characters that needs no look-ahead.
    fn lex_double(&mut self, token_type: TokenType<'a>) -> (r: Token<'a>)
        requires
            old(self).wf(),
            old(self).pos + 1 < old(self).chars.len(),
        ensures
            final(self).stepped(old(self), r, fixed(old(self).state(), token_type, 2)),
    {
        let ghost i = self.pos as int;
        self.next_char();
        self.next_char();
        proof {
            lemma_byte_offset_mono(self.chars@, i, i + 2);
        }
        self.add_multiple_token(token_type, 2)
    }

    /// The characters from `start` to the current place, as a token of `kind`
    /// whose column moves on by their bytes.
    fn add_text_token(&mut self, kind: TextKind, start: usize, start_byte: usize) -> (r: Token<'a>)
        requires
            old(self).wf(),
            start <= old(self).pos,
            start_byte as int == byte_offset(old(self).chars@, start as int),
            old(self).column_number <= start_byte,
        ensures
            final(self).wf(),
            final(self).same_source(old(self)),
            final(self).pos == old(self).pos,
            final(self).line_number == old(self).line_number,
            final(self).column_number == old(self).column_number + old(self).byte_pos - start_byte,
            r.token_type.has_text(kind, old(self).chars@.subrange(start as int, old(self).pos as int)),
            r.line_number == old(self).line_number,
            r.column_number == old(self).column_number,
    {
        let text = self.input.substring_char(start, self.pos);
        proof {
            lemma_byte_offset_mono(self.chars@, start as int, self.pos as int);
            self.lemma_bounds();
        }
        let token_type = match kind {
            TextKind::Macro => TokenType::Macro(text),
            TextKind::RegionBegin => TokenType::RegionBegin(text),
            TextKind::RegionEnd => TokenType::RegionEnd(text),
            TextKind::Identifier => TokenType::Identifier(text),
            TextKind::String => TokenType::String(text),
            TextKind::Number => TokenType::Number(text),
            TextKind::NumberStartDot => TokenType::NumberStartDot(text),
            TextKind::NumberEndDot => TokenType::NumberEndDot(text),
            TextKind::Comment => TokenType::Comment(text),
            TextKind::MultilineComment => TokenType::MultilineComment(text),
            TextKind::UnidentifiedInput => TokenType::UnidentifiedInput(text),
        };
        self.add_multiple_token(token_type, (self.byte_pos - start_byte) as u32)
    }

    /// A single character that starts no token of the language.
    fn return_unidentified_input(&mut self, start: usize) -> (r: Token<'a>)
        requires
            old(self).wf(),
            start == old(self).pos,
            start < old(self).chars.len(),
        ensures
            final(self).stepped(
                old(self),
                r,
                text_token(old(self).chars@, old(self).state(), TextKind::UnidentifiedInput, start + 1, start + 1),
            ),
    {
        let start_byte = self.next_char_boundary();
        self.next_char();
        self.add_text_token(TextKind::UnidentifiedInput, start, start_byte)
    }

    /// A compiler directive: `#macro`, `#region`, `#endregion`, `#define`, or a lone `#`.
    fn lex_directive(&mut self) -> (r: Token<'a>)
        requires
            old(self).wf(),
            old(self).pos < old(self).chars.len(),
            old(self).chars@[old(self).pos as int] == '#',
        ensures
            final(self).stepped(old(self), r, lex_directive(old(self).chars@, old(self).state())),
    {
        let ghost s = self.chars@;
        let start = self.pos;
        let start_byte = self.next_char_boundary();
        let start_line = self.line_number;
        let start_column = self.column_number;
        self.next_char();
        self.consume_class(CharClass::Ident);
        let word_end = self.pos;
        proof {
            lemma_byte_offset_mono(s, start as int, word_end as int);
            self.lemma_bounds();
        }
        if self.word_is(start, word_end, "#macro") {
            let mut is_multiline = false;
            let mut last_column_break = start_byte;
            loop
                invariant
                    self.wf(),
                    self.same_source(old(self)),
                    s == self.chars@,
                    word_end <= self.pos,
                    start_byte <= last_column_break <= self.byte_pos,
                    macro_scan(s, self.pos as int, self.line_number as int, is_multiline, last_column_break as int)
                        == macro_scan(s, word_end as int, start_line as int, false, start_byte as int),
                    self.column_number == if is_multiline { 0 } else { start_column },
                    !is_multiline ==> self.line_number == start_line,
                    !is_multiline ==> last_column_break == start_byte,
                ensures
                    self.pos == self.chars.len() || self.chars@[self.pos as int] == '\n',
                decreases self.chars.len() - self.pos,
            {
                match self.peek() {
                    None => break,
                    Some(peek_char) => {
                        if peek_char == '\n' {
                            break;
                        } else if peek_char == '\\' {
                            self.next_char();
                            if self.peek_and_check_consume('\n') {
                                last_column_break = self.next_char_boundary();
                                is_multiline = true;
                                self.next_line();
                            }
                        } else {
                            self.next_char();
                        }
                    },
                }
            }
            assert(macro_scan(s, self.pos as int, self.line_number as int, is_multiline, last_column_break as int)
                == (self.pos as int, self.line_number as int, is_multiline, last_column_break as int));
            let current = self.next_char_boundary();
            proof {
                lemma_byte_offset_mono(s, start as int, self.pos as int);
                self.lemma_bounds();
            }
            if is_multiline {
                let text = self.input.substring_char(start, self.pos);
                self.column_number = self.column_number + (current - last_column_break) as u32;
                Token::new(TokenType::Macro(text), start_line, start_column)
            } else {
                self.add_text_token(TextKind::Macro, start, start_byte)
            }
        } else if self.word_is(start, word_end, "#region") {
            self.consume_class(CharClass::NotNewline);
            proof {
                lemma_byte_offset_mono(s, start as int, self.pos as int);
            }
            self.add_text_token(TextKind::RegionBegin, start, start_byte)
        } else if self.word_is(start, word_end, "#endregion") {
            self.consume_class(CharClass::NotNewline);
            proof {
                lemma_byte_offset_mono(s, start as int, self.pos as int);
            }
            self.add_text_token(TextKind::RegionEnd, start, start_byte)
        } else if self.word_is(start, word_end, "#define") {
            let current = self.next_char_boundary();
            self.add_multiple_token(TokenType::Define, (current - start_byte) as u32)
        } else {
            // A `#` that starts no directive: the word after it is dropped, and
            // the column moves on by one.
            self.add_simple_token(TokenType::Hashtag)
        }
    }

    /// The rest of a string that may span lines, up to and past `break_char`.
    /// Gives the byte offset where it ends and the byte offset after the last newline in it.
    fn scan_multiline_string(&mut self, last_column_break: usize, break_char: char) -> (r: (usize, usize))
        requires
            old(self).wf(),
            last_column_break <= old(self).byte_pos,
        ensures
            final(self).wf(),
            final(self).same_source(old(self)),
            old(self).pos <= final(self).pos,
            ({
                let (end, line, lcb) = verbatim_scan(
                    old(self).chars@,
                    old(self).pos as int,
                    break_char,
                    old(self).line_number as int,
                    last_column_break as int,
                );
                &&& final(self).pos == end
                &&& final(self).line_number == line
                &&& r.0 as int == byte_offset(old(self).chars@, end)
                &&& r.1 == lcb
                &&& r.1 <= r.0
                &&& (line == old(self).line_number ==> r.1 == last_column_break)
                &&& final(self).column_number == if line == old(self).line_number {
                    old(self).column_number as int
                } else {
                    0
                }
            }),
    {
        let ghost s = self.chars@;
        let ghost lcb0 = last_column_break as int;
        let mut last_column_break = last_column_break;
        loop
            invariant_except_break
                verbatim_scan(s, self.pos as int, break_char, self.line_number as int, last_column_break as int)
                    == verbatim_scan(
                    s,
                    old(self).pos as int,
                    break_char,
                    old(self).line_number as int,
                    lcb0,
                ),
            invariant
                self.wf(),
                self.same_source(old(self)),
                s == self.chars@,
                old(self).pos <= self.pos,
                last_column_break <= self.byte_pos,
                self.line_number == old(self).line_number ==> last_column_break == lcb0,
                self.line_number >= old(self).line_number,
                self.column_number == if self.line_number == old(self).line_number {
                    old(self).column_number
                } else {
                    0
                },
            ensures
                self.wf(),
                self.same_source(old(self)),
                old(self).pos <= self.pos,
                last_column_break <= self.byte_pos,
                self.line_number == old(self).line_number ==> last_column_break == lcb0,
                self.line_number >= old(self).line_number,
                self.column_number == if self.line_number == old(self).line_number {
                    old(self).column_number
                } else {
                    0
                },
                verbatim_scan(s, old(self).pos as int, break_char, old(self).line_number as int, lcb0)
                    == (self.pos as int, self.line_number as int, last_column_break as int),
            decreases self.chars.len() - self.pos,
        {
            if self.pos >= self.chars.len() {
                break;
            }
            let ghost k = self.pos as int;
            let ghost line = self.line_number as int;
            let ghost lcb = last_column_break as int;
            let this_char = self.next_char();
            if this_char == break_char {
                assert(verbatim_scan(s, k, break_char, line, lcb) == (k + 1, line, lcb));
                break;
            } else if this_char == '\n' {
                last_column_break = self.next_char_boundary();
                self.next_line();
                assert(verbatim_scan(s, k, break_char, line, lcb) == verbatim_scan(
                    s,
                    k + 1,
                    break_char,
                    line + 1,
                    last_column_break as int,
                ));
            } else {
                assert(verbatim_scan(s, k, break_char, line, lcb) == verbatim_scan(s, k + 1, break_char, line, lcb));
            }
        }
        (self.next_char_boundary(), last_column_break)
    }

    /// A `@` and what follows it: a string that may span lines, or the `@` alone.
    fn lex_verbatim(&mut self) -> (r: Token<'a>)
        requires
            old(self).wf(),
            old(self).pos < old(self).chars.len(),
            old(self).chars@[old(self).pos as int] == '@',
        ensures
            final(self).stepped(old(self), r, lex_verbatim(old(self).chars@, old(self).state())),
    {
        let ghost s = self.chars@;
        let start = self.pos;
        let start_byte = self.next_char_boundary();
        let start_line = self.line_number;
        let start_column = self.column_number;
        self.next_char();
        match self.peek() {
            Some(this_char) => {
                if this_char == '\'' || this_char == '"' {
                    self.next_char();
                    proof {
                        lemma_byte_offset_mono(s, start as int, self.pos as int);
                    }
                    let (current, last_column_break) = self.scan_multiline_string(start_byte, this_char);
                    proof {
                        self.lemma_bounds();
                    }
                    let text = self.input.substring_char(start, self.pos);
                    self.column_number = self.column_number + (current - last_column_break) as u32;
                    Token::new(TokenType::String(text), start_line, start_column)
                } else {
                    self.add_text_token(TextKind::UnidentifiedInput, start, start_byte)
                }
            },
            None => self.add_text_token(TextKind::UnidentifiedInput, start, start_byte),
        }
    }

    /// A string in quotes `q`, where a backslash escapes `q` (and, when
    /// `escape_backslash`, a backslash). It ends at its closing quote or before
    /// the end of its line.
    fn lex_quoted(&mut self, q: char, escape_backslash: bool) -> (r: Token<'a>)
        requires
            old(self).wf(),
            old(self).pos < old(self).chars.len(),
        ensures
            final(self).stepped(old(self), r, lex_quoted(old(self).chars@, old(self).state(), q, escape_backslash)),
    {
        let ghost s = self.chars@;
        let start = self.pos;
        let start_byte = self.next_char_boundary();
        self.next_char();
        let mut current = start;
        let mut current_byte = start_byte;
        loop
            invariant_except_break
                quoted_scan(s, self.pos as int, current as int, q, escape_backslash) == quoted_scan(
                    s,
                    start + 1,
                    start as int,
                    q,
                    escape_backslash,
                ),
            invariant
                self.wf(),
                self.same_source(old(self)),
                s == self.chars@,
                start < self.pos,
                start <= current <= self.pos,
                current_byte as int == byte_offset(s, current as int),
                self.line_number == old(self).line_number,
                self.column_number == old(self).column_number,
            ensures
                quoted_scan(s, start + 1, start as int, q, escape_backslash) == (self.pos as int, current as int),
            decreases self.chars.len() - self.pos,
        {
            let ghost k = self.pos as int;
            let ghost cur = current as int;
            match self.peek() {
                None => {
                    break;
                },
                Some(break_char) => {
                    if break_char == '\n' {
                        current = self.pos;
                        current_byte = self.next_char_boundary();
                        break;
                    } else if break_char == '\\' {
                        self.next_char();
                        match self.peek() {
                            Some(escaped) => {
                                if escaped == q || (escape_backslash && escaped == '\\') {
                                    self.next_char();
                                    current = self.pos;
                                    current_byte = self.next_char_boundary();
                                }
                            },
                            None => {},
                        }
                    } else if break_char == q {
                        self.next_char();
                        current = self.pos;
                        current_byte = self.next_char_boundary();
                        break;
                    } else {
                        self.next_char();
                        current = self.pos;
                        current_byte = self.next_char_boundary();
                    }
                },
            }
        }
        proof {
            lemma_byte_offset_mono(s, start as int, current as int);
            lemma_byte_offset_mono(s, current as int, self.pos as int);
            self.lemma_bounds();
        }
        let text = self.input.substring_char(start, current);
        self.add_multiple_token(TokenType::String(text), (current_byte - start_byte) as u32)
    }

    /// A number: decimal, with or without a fraction, or hexadecimal after `0x`.
    fn lex_number(&mut self) -> (r: Token<'a>)
        requires
            old(self).wf(),
            old(self).pos < old(self).chars.len(),
            is_dec_digit(old(self).chars@[old(self).pos as int]),
        ensures
            final(self).stepped(old(self), r, lex_number(old(self).chars@, old(self).state())),
    {
        let ghost s = self.chars@;
        let start = self.pos;
        let start_byte = self.next_char_boundary();
        let c = self.next_char();
        if c == '0' {
            if let Some(number_char) = self.peek() {
                if number_char == 'x' {
                    self.next_char();
                    self.consume_class(CharClass::Hex);
                    proof {
                        lemma_byte_offset_mono(s, start as int, self.pos as int);
                    }
                    return self.add_text_token(TextKind::Number, start, start_byte);
                }
            }
        }
        self.consume_class(CharClass::Dec);
        let integer_end = self.pos;
        proof {
            lemma_byte_offset_mono(s, start as int, self.pos as int);
        }
        if self.peek_and_check_consume('.') {
            // a fraction, possibly empty
            self.consume_class(CharClass::Dec);
            proof {
                lemma_byte_offset_mono(s, start as int, self.pos as int);
            }
            if self.pos == integer_end + 1 {
                return self.add_text_token(TextKind::NumberEndDot, start, start_byte);
            }
            return self.add_text_token(TextKind::Number, start, start_byte);
        }
        self.add_text_token(TextKind::Number, start, start_byte)
    }

    /// A `/`: a comment, `/=` or a slash.
    fn lex_slash(&mut self) -> (r: Token<'a>)
        requires
            old(self).wf(),
            old(self).pos < old(self).chars.len(),
            old(self).chars@[old(self).pos as int] == '/',
        ensures
            final(self).stepped(old(self), r, lex_slash(old(self).chars@, old(self).state())),
    {
        let ghost s = self.chars@;
        let start = self.pos;
        let start_byte = self.next_char_boundary();
        self.next_char();
        if self.peek_and_check_consume('/') {
            self.consume_class(CharClass::NotNewline);
            proof {
                lemma_byte_offset_mono(s, start as int, self.pos as int);
            }
            self.add_text_token(TextKind::Comment, start, start_byte)
        } else if self.peek_and_check_consume('*') {
            let start_line = self.line_number;
            let start_column = self.column_number;
            let mut last_column_break = start_byte;
            let mut current = start;
            let mut current_byte = start_byte;
            loop
                invariant_except_break
                    block_comment_scan(
                        s,
                        self.pos as int,
                        current as int,
                        self.line_number as int,
                        last_column_break as int,
                    ) == block_comment_scan(s, start + 2, start as int, start_line as int, start_byte as int),
                invariant
                    self.wf(),
                    self.same_source(old(self)),
                    s == self.chars@,
                    start + 2 <= self.pos,
                    start <= current <= self.pos,
                    current_byte as int == byte_offset(s, current as int),
                    last_column_break <= self.byte_pos,
                    self.line_number >= start_line,
                    self.line_number == start_line ==> last_column_break == start_byte,
                    start_column <= start_byte,
                    self.column_number == if self.line_number == start_line { start_column } else { 0 },
                ensures
                    block_comment_scan(s, start + 2, start as int, start_line as int, start_byte as int) == (
                        self.pos as int,
                        current as int,
                        self.line_number as int,
                        last_column_break as int,
                    ),
                decreases self.chars.len() - self.pos,
            {
                if self.pos >= self.chars.len() {
                    break;
                }
                let comment_char = self.next_char();
                if comment_char == '*' {
                    if self.peek_and_check_consume('/') {
                        current = self.pos;
                        current_byte = self.next_char_boundary();
                        break;
                    }
                } else if comment_char == '\n' {
                    last_column_break = self.next_char_boundary();
                    self.next_line();
                }
            }
            proof {
                lemma_byte_offset_mono(s, start as int, current as int);
                lemma_byte_offset_mono(s, current as int, self.pos as int);
                self.lemma_bounds();
            }
            if current_byte > last_column_break {
                self.column_number = self.column_number + (current_byte - last_column_break) as u32;
            } else {
                self.column_number = current_byte as u32;
            }
            let text = self.input.substring_char(start, current);
            Token::new(TokenType::MultilineComment(text), start_line, start_column)
        } else if self.peek_and_check_consume('=') {
            proof {
                lemma_byte_offset_mono(s, start as int, self.pos as int);
            }
            self.add_multiple_token(TokenType::SlashEquals, 2)
        } else {
            proof {
                lemma_byte_offset_mono(s, start as int, self.pos as int);
            }
            self.add_simple_token(TokenType::Slash)
        }
    }

    /// An identifier or a reserved word.
    fn lex_word(&mut self) -> (r: Token<'a>)
        requires
            old(self).wf(),
            old(self).pos < old(self).chars.len(),
        ensures
            final(self).stepped(old(self), r, lex_word(old(self).chars@, old(self).state())),
    {
        let ghost s = self.chars@;
        let start = self.pos;
        let start_byte = self.next_char_boundary();
        self.next_char();
        self.consume_class(CharClass::Ident);
        proof {
            lemma_byte_offset_mono(s, start as int, self.pos as int);
            self.lemma_bounds();
        }
        let word = self.input.substring_char(start, self.pos);
        match self.keywords.get(word) {
            Some(code) => {
                let current = self.next_char_boundary();
                self.add_multiple_token(keyword_token(code), (current - start_byte) as u32)
            },
            None => self.add_multiple_token(
                TokenType::Identifier(word),
                (self.byte_pos - start_byte) as u32,
            ),
        }
    }

    /// A newline and the indentation of the next line.
    fn lex_newline(&mut self) -> (r: Token<'a>)
        requires
            old(self).wf(),
            old(self).pos < old(self).chars.len(),
            old(self).chars@[old(self).pos as int] == '\n',
        ensures
            final(self).stepped(old(self), r, lex_newline(old(self).chars@, old(self).state())),
    {
        let ghost s = self.chars@;
        let ghost start = self.pos as int;
        self.next_char();
        let mut tally: usize = 0;
        loop
            invariant
                self.wf(),
                self.same_source(old(self)),
                s == self.chars@,
                0 <= start,
                start + 1 <= self.pos,
                scan_class(s, self.pos as int, CharClass::SpaceOrTab) == scan_class(
                    s,
                    start + 1,
                    CharClass::SpaceOrTab,
                ),
                tally as int == indent_tally(s, start + 1, self.pos as int),
                tally <= 4 * (self.pos - start - 1),
                self.line_number == old(self).line_number,
                self.column_number == old(self).column_number,
            ensures
                self.pos == scan_class(s, start + 1, CharClass::SpaceOrTab),
            decreases self.chars.len() - self.pos,
        {
            proof {
                self.lemma_bounds();
                assert(self.pos <= MAX_SOURCE_BYTES);
                assert(tally <= 4 * MAX_SOURCE_BYTES);
            }
            match self.peek() {
                Some(c) => {
                    if c == ' ' {
                        self.next_char();
                        tally = tally + 1;
                    } else if c == '\t' {
                        self.next_char();
                        tally = tally + 4;
                    } else {
                        break;
                    }
                },
                None => {
                    break;
                },
            }
        }
        proof {
            self.lemma_bounds();
            lemma_byte_offset_mono(s, start, self.pos as int);
        }
        // The column would move on by the indentation, but the new line resets it.
        let ret = Token::new(TokenType::Newline(tally / 4), self.line_number, self.column_number);
        self.next_line();
        ret
    }

    /// The token that starts at the next character, which is not blank.
    fn lex_significant(&mut self) -> (r: Token<'a>)
        requires
            old(self).wf(),
            old(self).pos < old(self).chars.len(),
            !is_blank(old(self).chars@[old(self).pos as int]),
        ensures
            final(self).stepped(old(self), r, lex_at(old(self).chars@, old(self).state())),
    {
        let ghost s = self.chars@;
        let start = self.pos;
        let c = self.chars[self.pos];
        match c {
            '(' => self.lex_single(TokenType::LeftParen),
            ')' => self.lex_single(TokenType::RightParen),
            '{' => self.lex_single(TokenType::LeftBrace),
            '}' => self.lex_single(TokenType::RightBrace),
            ',' => self.lex_single(TokenType::Comma),
            '~' => self.lex_single(TokenType::Tilde),
            '-' => self.lex_operator('=', TokenType::MinusEquals, '-', TokenType::Decrementer, TokenType::Minus),
            '+' => self.lex_operator('=', TokenType::PlusEquals, '+', TokenType::Incrementer, TokenType::Plus),
            ';' => self.lex_single(TokenType::Semicolon),
            '*' => self.lex_operator('=', TokenType::StarEquals, '=', TokenType::StarEquals, TokenType::Star),
            ':' => self.lex_single(TokenType::Colon),
            '%' => self.lex_operator('=', TokenType::ModEquals, '=', TokenType::ModEquals, TokenType::Mod),
            ']' => self.lex_single(TokenType::RightBracket),
            '?' => self.lex_single(TokenType::Hook),
            '\\' => self.lex_single(TokenType::Backslash),
            '!' => self.lex_operator('=', TokenType::BangEqual, '=', TokenType::BangEqual, TokenType::Bang),
            '=' => self.lex_operator('=', TokenType::EqualEqual, '=', TokenType::EqualEqual, TokenType::Equal),
            '<' => {
                if self.peek_second() == Some('<') {
                    self.lex_double(TokenType::BitLeft)
                } else {
                    self.lex_operator(
                        '=',
                        TokenType::LessEqual,
                        '>',
                        TokenType::LessThanGreaterThan,
                        TokenType::Less,
                    )
                }
            },
            '>' => self.lex_operator(
                '=',
                TokenType::GreaterEqual,
                '>',
                TokenType::BitRight,
                TokenType::Greater,
            ),
            '&' => self.lex_operator('&', TokenType::LogicalAnd, '=', TokenType::BitAndEquals, TokenType::BitAnd),
            '|' => self.lex_operator('|', TokenType::LogicalOr, '=', TokenType::BitOrEquals, TokenType::BitOr),
            '^' => self.lex_operator('^', TokenType::LogicalXor, '=', TokenType::BitXorEquals, TokenType::BitXor),
            '[' => {
                let second = self.peek_second();
                if second == Some('@') {
                    self.lex_double(TokenType::ArrayIndexer)
                } else if second == Some('?') {
                    self.lex_double(TokenType::MapIndexer)
                } else {
                    self.lex_operator(
                        '|',
                        TokenType::ListIndexer,
                        '#',
                        TokenType::GridIndexer,
                        TokenType::LeftBracket,
                    )
                }
            },
            '#' => self.lex_directive(),
            '@' => self.lex_verbatim(),
            '"' => self.lex_quoted('"', true),
            '\'' => self.lex_quoted('\'', false),
            '.' => {
                let second = self.peek_second();
                if second.is_some() && '0' <= second.unwrap() && second.unwrap() <= '9' {
                    let start_byte = self.next_char_boundary();
                    self.next_char();
                    self.consume_class(CharClass::Dec);
                    proof {
                        lemma_byte_offset_mono(s, start as int, self.pos as int);
                    }
                    self.add_text_token(TextKind::NumberStartDot, start, start_byte)
                } else {
                    self.lex_single(TokenType::Dot)
                }
            },
            '0'..='9' => self.lex_number(),
            '$' => {
                let start_byte = self.next_char_boundary();
                self.next_char();
                self.consume_class(CharClass::Hex);
                proof {
                    lemma_byte_offset_mono(s, start as int, self.pos as int);
                }
                self.add_text_token(TextKind::Number, start, start_byte)
            },
            '/' => self.lex_slash(),
            'A'..='Z' | 'a'..='z' | '_' => self.lex_word(),
            '\n' => self.lex_newline(),
            _ => self.return_unidentified_input(start),
        }
    }

    /// The next token, or `None` when only blanks are left.
    pub fn lex_input(&mut self) -> (r: Option<Token<'a>>)
        requires
            old(self).wf(),
        ensures
            final(self).wf(),
            final(self).source() == old(self).source(),
            match spec_next::<'a>(old(self).source(), old(self).state()) {
                None => r is None && final(self).state() == skip_blank(old(self).source(), old(self).state()),
                Some(step) => r is Some && token_fits(old(self).source(), r->0, step) && final(self).state()
                    == step.next,
            },
            r is Some ==> old(self).state().pos < final(self).state().pos,
            0 <= final(self).state().pos <= final(self).source().len(),
            0 <= final(self).state().line <= final(self).state().pos,
    {
        let ghost s = self.chars@;
        loop
            invariant
                self.wf(),
                self.same_source(old(self)),
                s == self.chars@,
                old(self).pos <= self.pos,
                skip_blank(s, self.state()) == skip_blank(s, old(self).state()),
            decreases self.chars.len() - self.pos,
        {
            match self.peek() {
                None => {
                    return None;
                },
                Some(c) => {
                    if c == ' ' || c == '\t' {
                        self.next_char();
                        proof {
                            lemma_byte_offset_mono(s, self.pos - 1, self.pos as int);
                            self.lemma_bounds();
                        }
                        self.column_number = self.column_number + 1;
                    } else if c == '\r' {
                        self.next_char();
                    } else {
                        return Some(self.lex_significant());
                    }
                },
            }
        }
    }

    /// All the remaining tokens, in order.
    pub fn collect(self) -> (r: Vec<Token<'a>>)
        requires
            self.wf(),
        ensures
            lexes_to(self.source(), self.state(), r@),
    {
        let ghost s = self.source();
        let ghost st0 = self.state();
        let mut scanner = self;
        let mut tokens: Vec<Token<'a>> = Vec::new();
        loop
            invariant_except_break
                lexes_prefix(s, st0, tokens@, scanner.state()),
            invariant
                scanner.wf(),
                scanner.source() == s,
            ensures
                lexes_to(s, st0, tokens@),
            decreases scanner.chars.len() - scanner.pos,
        {
            let ghost before = scanner.state();
            match scanner.lex_input() {
                Some(token) => {
                    proof {
                        let step = spec_next::<'a>(s, before)->0;
                        lemma_lexes_prefix_push(s, st0, tokens@, before, token, step);
                    }
                    tokens.push(token);
                },
                None => {
                    proof {
                        lemma_lexes_prefix_done(s, st0, tokens@, before);
                    }
                    break;
                },
            }
        }
        tokens
    }

    /// Whether the characters from `a` to `b` spell `word`.
    fn word_is(&self, a: usize, b: usize, word: &str) -> (r: bool)
        requires
            self.wf(),
            a <= b <= self.chars.len(),
        ensures
            r == (self.chars@.subrange(a as int, b as int) == word@),
    {
        let n = word.unicode_len();
        if b - a != n {
            return false;
        }
        let mut k: usize = 0;
        while k < n
            invariant
                self.wf(),
                a <= b <= self.chars.len(),
                n == word@.len(),
                b - a == n,
                k <= n,
                forall|j: int| 0 <= j < k ==> self.chars@[a + j] == word@[j],
            decreases n - k,
        {
            if self.chars[a + k] != word.get_char(k) {
                assert(self.chars@.subrange(a as int, b as int)[k as int] != word@[k as int]);
                return false;
            }
            k = k + 1;
        }
        assert(self.chars@.subrange(a as int, b as int) =~= word@);
        true
    }
}

} // verus!
