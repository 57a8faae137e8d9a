//! What the scanner produces, stated over the characters of the source.
use crate::keywords::{keyword_map, keyword_type};
use crate::lex_token::{lemma_plain_name_not_newline, TextKind, Token, TokenType};
use vstd::prelude::*;

verus! {

/// The largest source, in bytes of UTF-8, that the scanner accepts: up to it,
/// its line and column counters (`u32`) and the indentation it tallies for a
/// line (four columns for a tab, in a `usize` of 32 bits) cannot overflow.
pub const MAX_SOURCE_BYTES: usize = 0x3fff_fffe;

pub open spec fn is_ident_char(c: char) -> bool {
    ('a' <= c && c <= 'z') || ('A' <= c && c <= 'Z') || ('0' <= c && c <= '9') || c == '_'
}

pub open spec fn is_ident_start(c: char) -> bool {
    ('a' <= c && c <= 'z') || ('A' <= c && c <= 'Z') || c == '_'
}

pub open spec fn is_dec_digit(c: char) -> bool {
    '0' <= c && c <= '9'
}

pub open spec fn is_hex_digit(c: char) -> bool {
    ('0' <= c && c <= '9') || ('a' <= c && c <= 'f') || ('A' <= c && c <= 'F')
}

pub open spec fn is_not_newline(c: char) -> bool {
    c != '\n'
}

pub open spec fn is_space_or_tab(c: char) -> bool {
    c == ' ' || c == '\t'
}

/// Characters skipped between tokens.
pub open spec fn is_blank(c: char) -> bool {
    c == ' ' || c == '\t' || c == '\r'
}

/// Number of bytes of `c` in UTF-8.
pub open spec fn utf8_width(c: char) -> int {
    if (c as u32) < 0x80 {
        1
    } else if (c as u32) < 0x800 {
        2
    } else if (c as u32) < 0x10000 {
        3
    } else {
        4
    }
}

/// Byte offset, in the UTF-8 encoding of `s`, of the character at index `i`.
pub open spec fn byte_offset(s: Seq<char>, i: int) -> int
    decreases i,
{
    if i <= 0 {
        0
    } else {
        byte_offset(s, i - 1) + utf8_width(s[i - 1])
    }
}

/// Bytes of the UTF-8 encoding of `s`.
pub open spec fn byte_len(s: Seq<char>) -> int {
    byte_offset(s, s.len() as int)
}

/// The classes of characters that the scanner consumes in runs.
#[derive(PartialEq, Eq, Structural, Clone, Copy)]
pub enum CharClass {
    Ident,
    Dec,
    Hex,
    NotNewline,
    SpaceOrTab,
}

pub open spec fn in_class(class: CharClass, c: char) -> bool {
    match class {
        CharClass::Ident => is_ident_char(c),
        CharClass::Dec => is_dec_digit(c),
        CharClass::Hex => is_hex_digit(c),
        CharClass::NotNewline => is_not_newline(c),
        CharClass::SpaceOrTab => is_space_or_tab(c),
    }
}

/// The first index from `k` on whose character is not in `class` (or the end).
pub open spec fn scan_class(s: Seq<char>, k: int, class: CharClass) -> int
    decreases s.len() - k,
{
    if 0 <= k < s.len() && in_class(class, s[k]) {
        scan_class(s, k + 1, class)
    } else {
        k
    }
}

/// Where the scanner stands: the index of the next character, the line and the column.
pub struct ScanState {
    pub pos: int,
    pub line: int,
    pub col: int,
}

/// The text of a token: a fixed token, or a text-carrying variant with the
/// character range of the source that it holds.
pub enum Lexeme<'a> {
    Fixed(TokenType<'a>),
    Text(TextKind, int, int),
}

/// One token of the scan: what it is, the line and column it is reported at,
/// and where the scanner stands after it.
pub struct Step<'a> {
    pub lexeme: Lexeme<'a>,
    pub line: int,
    pub col: int,
    pub next: ScanState,
}

/// Skips spaces and tabs (each one column) and carriage returns (no column).
pub open spec fn skip_blank(s: Seq<char>, st: ScanState) -> ScanState
    decreases s.len() - st.pos,
{
    if 0 <= st.pos < s.len() && is_blank(s[st.pos]) {
        skip_blank(
            s,
            ScanState {
                pos: st.pos + 1,
                line: st.line,
                col: if s[st.pos] == '\r' { st.col } else { st.col + 1 },
            },
        )
    } else {
        st
    }
}

/// A token of `n` ASCII characters at the current place.
pub open spec fn fixed<'a>(st: ScanState, tt: TokenType<'a>, n: int) -> Step<'a> {
    Step {
        lexeme: Lexeme::Fixed(tt),
        line: st.line,
        col: st.col,
        next: ScanState { pos: st.pos + n, line: st.line, col: st.col + n },
    }
}

/// A token holding the source from `st.pos` to `end`, after which the scanner
/// stands at `next`; its column advances by the bytes of the text.
pub open spec fn text_token<'a>(s: Seq<char>, st: ScanState, kind: TextKind, end: int, next: int) -> Step<'a> {
    Step {
        lexeme: Lexeme::Text(kind, st.pos, end),
        line: st.line,
        col: st.col,
        next: ScanState {
            pos: next,
            line: st.line,
            col: st.col + byte_offset(s, end) - byte_offset(s, st.pos),
        },
    }
}

pub open spec fn char_at_is(s: Seq<char>, k: int, c: char) -> bool {
    0 <= k < s.len() && s[k] == c
}

/// An operator that may take a second character: `d1` gives `t1`, `d2` gives
/// `t2`, anything else gives `single`.
pub open spec fn operator<'a>(
    s: Seq<char>,
    st: ScanState,
    d1: char,
    t1: TokenType<'a>,
    d2: char,
    t2: TokenType<'a>,
    single: TokenType<'a>,
) -> Step<'a> {
    if char_at_is(s, st.pos + 1, d1) {
        fixed(st, t1, 2)
    } else if char_at_is(s, st.pos + 1, d2) {
        fixed(st, t2, 2)
    } else {
        fixed(st, single, 1)
    }
}

/// The body of `#macro`: up to a newline that is not escaped by a backslash.
/// Gives the end, the line there, whether an escaped newline was met, and
/// the byte offset after the last escaped newline.
pub open spec fn macro_scan(s: Seq<char>, k: int, line: int, multiline: bool, lcb: int) -> (int, int, bool, int)
    decreases s.len() - k,
{
    if 0 <= k < s.len() {
        if s[k] == '\n' {
            (k, line, multiline, lcb)
        } else if s[k] == '\\' {
            if char_at_is(s, k + 1, '\n') {
                macro_scan(s, k + 2, line + 1, true, byte_offset(s, k + 2))
            } else {
                macro_scan(s, k + 1, line, multiline, lcb)
            }
        } else {
            macro_scan(s, k + 1, line, multiline, lcb)
        }
    } else {
        (k, line, multiline, lcb)
    }
}

/// The body of a `@"..."` or `@'...'` string, up to and past the closing quote
/// `q`: the end, the line there, and the byte offset after the last newline.
pub open spec fn verbatim_scan(s: Seq<char>, k: int, q: char, line: int, lcb: int) -> (int, int, int)
    decreases s.len() - k,
{
    if 0 <= k < s.len() {
        if s[k] == q {
            (k + 1, line, lcb)
        } else if s[k] == '\n' {
            verbatim_scan(s, k + 1, q, line + 1, byte_offset(s, k + 1))
        } else {
            verbatim_scan(s, k + 1, q, line, lcb)
        }
    } else {
        (k, line, lcb)
    }
}

/// The body of a quoted string with quote `q`, where a backslash escapes `q`
/// (and, when `escape_backslash`, a backslash). Gives where the scanner stops
/// and where the token's text ends.
pub open spec fn quoted_scan(s: Seq<char>, k: int, cur: int, q: char, escape_backslash: bool) -> (int, int)
    decreases s.len() - k,
{
    if 0 <= k < s.len() {
        if s[k] == '\n' {
            (k, k)
        } else if s[k] == '\\' {
            if char_at_is(s, k + 1, q) || (escape_backslash && char_at_is(s, k + 1, '\\')) {
                quoted_scan(s, k + 2, k + 2, q, escape_backslash)
            } else {
                quoted_scan(s, k + 1, cur, q, escape_backslash)
            }
        } else if s[k] == q {
            (k + 1, k + 1)
        } else {
            quoted_scan(s, k + 1, k + 1, q, escape_backslash)
        }
    } else {
        (k, cur)
    }
}

/// The body of a `/* */` comment: where the scanner stops, where the text
/// ends (the start when the comment is not closed), the line there, and the
/// byte offset after the last newline.
pub open spec fn block_comment_scan(s: Seq<char>, k: int, cur: int, line: int, lcb: int) -> (int, int, int, int)
    decreases s.len() - k,
{
    if 0 <= k < s.len() {
        if s[k] == '*' && char_at_is(s, k + 1, '/') {
            (k + 2, k + 2, line, lcb)
        } else if s[k] == '\n' {
            block_comment_scan(s, k + 1, cur, line + 1, byte_offset(s, k + 1))
        } else {
            block_comment_scan(s, k + 1, cur, line, lcb)
        }
    } else {
        (k, cur, line, lcb)
    }
}

/// Columns of the indentation from `a` to `b`: a space is one, a tab four.
pub open spec fn indent_tally(s: Seq<char>, a: int, b: int) -> int
    decreases b - a,
{
    if b <= a {
        0
    } else {
        indent_tally(s, a, b - 1) + if s[b - 1] == '\t' { 4int } else { 1int }
    }
}

/// A compiler directive starting with `#`.
pub open spec fn lex_directive<'a>(s: Seq<char>, st: ScanState) -> Step<'a> {
    let i = st.pos;
    let w = scan_class(s, i + 1, CharClass::Ident);
    let word = s.subrange(i, w);
    if word == "#macro"@ {
        let (end, line, multiline, lcb) = macro_scan(s, w, st.line, false, byte_offset(s, i));
        Step {
            lexeme: Lexeme::Text(TextKind::Macro, i, end),
            line: st.line,
            col: st.col,
            next: ScanState {
                pos: end,
                line: line,
                col: if multiline {
                    byte_offset(s, end) - lcb
                } else {
                    st.col + byte_offset(s, end) - byte_offset(s, i)
                },
            },
        }
    } else if word == "#region"@ {
        let end = scan_class(s, w, CharClass::NotNewline);
        text_token(s, st, TextKind::RegionBegin, end, end)
    } else if word == "#endregion"@ {
        let end = scan_class(s, w, CharClass::NotNewline);
        text_token(s, st, TextKind::RegionEnd, end, end)
    } else if word == "#define"@ {
        Step {
            lexeme: Lexeme::Fixed(TokenType::Define),
            line: st.line,
            col: st.col,
            next: ScanState {
                pos: w,
                line: st.line,
                col: st.col + byte_offset(s, w) - byte_offset(s, i),
            },
        }
    } else {
        Step {
            lexeme: Lexeme::Fixed(TokenType::Hashtag),
            line: st.line,
            col: st.col,
            next: ScanState { pos: w, line: st.line, col: st.col + 1 },
        }
    }
}

/// A `@` followed by a quote starts a string that may span lines.
pub open spec fn lex_verbatim<'a>(s: Seq<char>, st: ScanState) -> Step<'a> {
    let i = st.pos;
    if char_at_is(s, i + 1, '\'') || char_at_is(s, i + 1, '"') {
        let (end, line, lcb) = verbatim_scan(s, i + 2, s[i + 1], st.line, byte_offset(s, i));
        Step {
            lexeme: Lexeme::Text(TextKind::String, i, end),
            line: st.line,
            col: st.col,
            next: ScanState {
                pos: end,
                line: line,
                col: (if line == st.line { st.col } else { 0 }) + byte_offset(s, end) - lcb,
            },
        }
    } else {
        text_token(s, st, TextKind::UnidentifiedInput, i + 1, i + 1)
    }
}

/// A quoted string.
pub open spec fn lex_quoted<'a>(s: Seq<char>, st: ScanState, q: char, escape_backslash: bool) -> Step<'a> {
    let (stop, end) = quoted_scan(s, st.pos + 1, st.pos, q, escape_backslash);
    text_token(s, st, TextKind::String, end, stop)
}

/// A number, decimal (possibly with a fraction) or hexadecimal after `0x`.
pub open spec fn lex_number<'a>(s: Seq<char>, st: ScanState) -> Step<'a> {
    let i = st.pos;
    if s[i] == '0' && char_at_is(s, i + 1, 'x') {
        let end = scan_class(s, i + 2, CharClass::Hex);
        text_token(s, st, TextKind::Number, end, end)
    } else {
        let k = scan_class(s, i + 1, CharClass::Dec);
        if char_at_is(s, k, '.') {
            let j = scan_class(s, k + 1, CharClass::Dec);
            if j == k + 1 {
                text_token(s, st, TextKind::NumberEndDot, j, j)
            } else {
                text_token(s, st, TextKind::Number, j, j)
            }
        } else {
            text_token(s, st, TextKind::Number, k, k)
        }
    }
}

/// A `/`: a line comment, a block comment, `/=` or a slash.
pub open spec fn lex_slash<'a>(s: Seq<char>, st: ScanState) -> Step<'a> {
    let i = st.pos;
    if char_at_is(s, i + 1, '/') {
        let end = scan_class(s, i + 2, CharClass::NotNewline);
        text_token(s, st, TextKind::Comment, end, end)
    } else if char_at_is(s, i + 1, '*') {
        let (stop, end, line, lcb) = block_comment_scan(s, i + 2, i, st.line, byte_offset(s, i));
        let base = if line == st.line { st.col } else { 0 };
        Step {
            lexeme: Lexeme::Text(TextKind::MultilineComment, i, end),
            line: st.line,
            col: st.col,
            next: ScanState {
                pos: stop,
                line: line,
                col: if byte_offset(s, end) > lcb {
                    base + byte_offset(s, end) - lcb
                } else {
                    byte_offset(s, end)
                },
            },
        }
    } else if char_at_is(s, i + 1, '=') {
        fixed(st, TokenType::SlashEquals, 2)
    } else {
        fixed(st, TokenType::Slash, 1)
    }
}

/// An identifier, or a reserved word.
pub open spec fn lex_word<'a>(s: Seq<char>, st: ScanState) -> Step<'a> {
    let i = st.pos;
    let end = scan_class(s, i + 1, CharClass::Ident);
    let word = s.subrange(i, end);
    if keyword_map().contains_key(word) {
        Step {
            lexeme: Lexeme::Fixed(keyword_type(keyword_map()[word])),
            line: st.line,
            col: st.col,
            next: ScanState {
                pos: end,
                line: st.line,
                col: st.col + byte_offset(s, end) - byte_offset(s, i),
            },
        }
    } else {
        text_token(s, st, TextKind::Identifier, end, end)
    }
}

/// A newline, with the indentation of the next line: the token holds the
/// indentation in steps of four columns, and a new line starts at column 0.
pub open spec fn lex_newline<'a>(s: Seq<char>, st: ScanState) -> Step<'a> {
    let i = st.pos;
    let end = scan_class(s, i + 1, CharClass::SpaceOrTab);
    Step {
        lexeme: Lexeme::Fixed(TokenType::Newline((indent_tally(s, i + 1, end) / 4) as usize)),
        line: st.line,
        col: st.col,
        next: ScanState { pos: end, line: st.line + 1, col: 0 },
    }
}

/// The token that starts at `st.pos`, a character that is not blank.
pub open spec fn lex_at<'a>(s: Seq<char>, st: ScanState) -> Step<'a> {
    let c = s[st.pos];
    if c == '(' {
        fixed(st, TokenType::LeftParen, 1)
    } else if c == ')' {
        fixed(st, TokenType::RightParen, 1)
    } else if c == '{' {
        fixed(st, TokenType::LeftBrace, 1)
    } else if c == '}' {
        fixed(st, TokenType::RightBrace, 1)
    } else if c == ',' {
        fixed(st, TokenType::Comma, 1)
    } else if c == '~' {
        fixed(st, TokenType::Tilde, 1)
    } else if c == '-' {
        operator(s, st, '=', TokenType::MinusEquals, '-', TokenType::Decrementer, TokenType::Minus)
    } else if c == '+' {
        operator(s, st, '=', TokenType::PlusEquals, '+', TokenType::Incrementer, TokenType::Plus)
    } else if c == ';' {
        fixed(st, TokenType::Semicolon, 1)
    } else if c == '*' {
        operator(s, st, '=', TokenType::StarEquals, '=', TokenType::StarEquals, TokenType::Star)
    } else if c == ':' {
        fixed(st, TokenType::Colon, 1)
    } else if c == '%' {
        operator(s, st, '=', TokenType::ModEquals, '=', TokenType::ModEquals, TokenType::Mod)
    } else if c == ']' {
        fixed(st, TokenType::RightBracket, 1)
    } else if c == '?' {
        fixed(st, TokenType::Hook, 1)
    } else if c == '\\' {
        fixed(st, TokenType::Backslash, 1)
    } else if c == '!' {
        operator(s, st, '=', TokenType::BangEqual, '=', TokenType::BangEqual, TokenType::Bang)
    } else if c == '=' {
        operator(s, st, '=', TokenType::EqualEqual, '=', TokenType::EqualEqual, TokenType::Equal)
    } else if c == '<' {
        if char_at_is(s, st.pos + 1, '<') {
            fixed(st, TokenType::BitLeft, 2)
        } else {
            operator(s, st, '=', TokenType::LessEqual, '>', TokenType::LessThanGreaterThan, TokenType::Less)
        }
    } else if c == '>' {
        operator(s, st, '=', TokenType::GreaterEqual, '>', TokenType::BitRight, TokenType::Greater)
    } else if c == '&' {
        operator(s, st, '&', TokenType::LogicalAnd, '=', TokenType::BitAndEquals, TokenType::BitAnd)
    } else if c == '|' {
        operator(s, st, '|', TokenType::LogicalOr, '=', TokenType::BitOrEquals, TokenType::BitOr)
    } else if c == '^' {
        operator(s, st, '^', TokenType::LogicalXor, '=', TokenType::BitXorEquals, TokenType::BitXor)
    } else if c == '[' {
        if char_at_is(s, st.pos + 1, '@') {
            fixed(st, TokenType::ArrayIndexer, 2)
        } else if char_at_is(s, st.pos + 1, '?') {
            fixed(st, TokenType::MapIndexer, 2)
        } else {
            operator(s, st, '|', TokenType::ListIndexer, '#', TokenType::GridIndexer, TokenType::LeftBracket)
        }
    } else if c == '#' {
        lex_directive(s, st)
    } else if c == '@' {
        lex_verbatim(s, st)
    } else if c == '"' {
        lex_quoted(s, st, '"', true)
    } else if c == '\'' {
        lex_quoted(s, st, '\'', false)
    } else if c == '.' {
        if 0 <= st.pos + 1 < s.len() && is_dec_digit(s[st.pos + 1]) {
            let end = scan_class(s, st.pos + 1, CharClass::Dec);
            text_token(s, st, TextKind::NumberStartDot, end, end)
        } else {
            fixed(st, TokenType::Dot, 1)
        }
    } else if is_dec_digit(c) {
        lex_number(s, st)
    } else if c == '$' {
        let end = scan_class(s, st.pos + 1, CharClass::Hex);
        text_token(s, st, TextKind::Number, end, end)
    } else if c == '/' {
        lex_slash(s, st)
    } else if is_ident_start(c) {
        lex_word(s, st)
    } else if c == '\n' {
        lex_newline(s, st)
    } else {
        text_token(s, st, TextKind::UnidentifiedInput, st.pos + 1, st.pos + 1)
    }
}

/// The next token from `st`: none when only blanks are left.
pub open spec fn spec_next<'a>(s: Seq<char>, st: ScanState) -> Option<Step<'a>> {
    let st1 = skip_blank(s, st);
    if 0 <= st1.pos < s.len() {
        Some(lex_at(s, st1))
    } else {
        None
    }
}

/// `tok` is the token that `step` describes.
pub open spec fn token_fits<'a>(s: Seq<char>, tok: Token<'a>, step: Step<'a>) -> bool {
    &&& tok.line_number == step.line
    &&& tok.column_number == step.col
    &&& match step.lexeme {
        Lexeme::Fixed(tt) => tok.token_type == tt,
        Lexeme::Text(kind, a, b) => tok.token_type.has_text(kind, s.subrange(a, b)),
    }
}

/// `toks` are all the tokens of `s` scanned from `st`, in order.
pub open spec fn lexes_to<'a>(s: Seq<char>, st: ScanState, toks: Seq<Token<'a>>) -> bool
    decreases toks.len(),
{
    match spec_next::<'a>(s, st) {
        None => toks.len() == 0,
        Some(step) => toks.len() > 0 && token_fits(s, toks[0], step) && lexes_to(s, step.next, toks.drop_first()),
    }
}

/// `toks` are the first tokens of `s` scanned from `st`, after which the scanner stands at `last`.
pub open spec fn lexes_prefix<'a>(s: Seq<char>, st: ScanState, toks: Seq<Token<'a>>, last: ScanState) -> bool
    decreases toks.len(),
{
    if toks.len() == 0 {
        last == st
    } else {
        match spec_next::<'a>(s, st) {
            None => false,
            Some(step) => token_fits(s, toks[0], step) && lexes_prefix(s, step.next, toks.drop_first(), last),
        }
    }
}

pub open spec fn start_state() -> ScanState {
    ScanState { pos: 0, line: 0, col: 0 }
}

// ----- lemmas -----

pub proof fn lemma_byte_offset_mono(s: Seq<char>, i: int, j: int)
    requires
        0 <= i <= j <= s.len(),
    ensures
        byte_offset(s, j) - byte_offset(s, i) >= j - i,
        byte_offset(s, j) - byte_offset(s, i) <= 4 * (j - i),
    decreases j - i,
{
    if i < j {
        lemma_byte_offset_mono(s, i, j - 1);
    }
}

/// A prefix of the scan extended by one more token.
pub proof fn lemma_lexes_prefix_push<'a>(
    s: Seq<char>,
    st: ScanState,
    toks: Seq<Token<'a>>,
    last: ScanState,
    tok: Token<'a>,
    step: Step<'a>,
)
    requires
        lexes_prefix(s, st, toks, last),
        spec_next::<'a>(s, last) == Some(step),
        token_fits(s, tok, step),
    ensures
        lexes_prefix(s, st, toks.push(tok), step.next),
    decreases toks.len(),
{
    if toks.len() == 0 {
        assert(toks.push(tok).drop_first() =~= Seq::<Token<'a>>::empty());
        assert(lexes_prefix(s, step.next, Seq::<Token<'a>>::empty(), step.next));
        assert(toks.push(tok)[0] == tok);
    } else {
        let first = spec_next::<'a>(s, st)->0;
        lemma_lexes_prefix_push(s, first.next, toks.drop_first(), last, tok, step);
        assert(toks.push(tok).drop_first() =~= toks.drop_first().push(tok));
        assert(toks.push(tok)[0] == toks[0]);
    }
}

/// A prefix of the scan after which nothing is left is the whole scan.
pub proof fn lemma_lexes_prefix_done<'a>(s: Seq<char>, st: ScanState, toks: Seq<Token<'a>>, last: ScanState)
    requires
        lexes_prefix(s, st, toks, last),
        spec_next::<'a>(s, last) is None,
    ensures
        lexes_to(s, st, toks),
    decreases toks.len(),
{
    if toks.len() > 0 {
        let first = spec_next::<'a>(s, st)->0;
        lemma_lexes_prefix_done(s, first.next, toks.drop_first(), last);
    }
}

/// Two tokens are the same token: at the same place, of the same variant,
/// with the same text, and with the same indentation when they are newlines.
pub open spec fn same_token<'a>(a: Token<'a>, b: Token<'a>) -> bool {
    &&& a.line_number == b.line_number
    &&& a.column_number == b.column_number
    &&& a.token_type.tag() == b.token_type.tag()
    &&& a.token_type.payload() == b.token_type.payload()
    &&& (a.token_type is Newline ==> a.token_type == b.token_type)
}

/// The tokens of a source are determined by it: two scans of the same source
/// from the same place give the same tokens.
pub proof fn lemma_scan_unique<'a>(s: Seq<char>, st: ScanState, t1: Seq<Token<'a>>, t2: Seq<Token<'a>>)
    requires
        lexes_to(s, st, t1),
        lexes_to(s, st, t2),
    ensures
        t1.len() == t2.len(),
        forall|i: int| 0 <= i < t1.len() ==> same_token(#[trigger] t1[i], t2[i]),
    decreases t1.len(),
{
    if let Some(step) = spec_next::<'a>(s, st) {
        lemma_scan_unique(s, step.next, t1.drop_first(), t2.drop_first());
        assert(same_token(t1[0], t2[0]));
        assert forall|i: int| 0 <= i < t1.len() implies same_token(#[trigger] t1[i], t2[i]) by {
            if i > 0 {
                assert(t1[i] == t1.drop_first()[i - 1]);
                assert(t2[i] == t2.drop_first()[i - 1]);
            }
        }
    }
}

proof fn lemma_skip_blank_keeps_line(s: Seq<char>, st: ScanState)
    ensures
        skip_blank(s, st).line == st.line,
    decreases s.len() - st.pos,
{
    if 0 <= st.pos < s.len() && is_blank(s[st.pos]) {
        lemma_skip_blank_keeps_line(
            s,
            ScanState { pos: st.pos + 1, line: st.line, col: if s[st.pos] == '\r' { st.col } else { st.col + 1 } },
        );
    }
}

proof fn lemma_macro_scan_line(s: Seq<char>, k: int, line: int, multiline: bool, lcb: int)
    ensures
        macro_scan(s, k, line, multiline, lcb).1 >= line,
    decreases s.len() - k,
{
    if 0 <= k < s.len() && s[k] != '\n' {
        if s[k] == '\\' && char_at_is(s, k + 1, '\n') {
            lemma_macro_scan_line(s, k + 2, line + 1, true, byte_offset(s, k + 2));
        } else {
            lemma_macro_scan_line(s, k + 1, line, multiline, lcb);
        }
    }
}

proof fn lemma_verbatim_scan_line(s: Seq<char>, k: int, q: char, line: int, lcb: int)
    ensures
        verbatim_scan(s, k, q, line, lcb).1 >= line,
    decreases s.len() - k,
{
    if 0 <= k < s.len() && s[k] != q {
        if s[k] == '\n' {
            lemma_verbatim_scan_line(s, k + 1, q, line + 1, byte_offset(s, k + 1));
        } else {
            lemma_verbatim_scan_line(s, k + 1, q, line, lcb);
        }
    }
}

proof fn lemma_block_comment_scan_line(s: Seq<char>, k: int, cur: int, line: int, lcb: int)
    ensures
        block_comment_scan(s, k, cur, line, lcb).2 >= line,
    decreases s.len() - k,
{
    if 0 <= k < s.len() && !(s[k] == '*' && char_at_is(s, k + 1, '/')) {
        if s[k] == '\n' {
            lemma_block_comment_scan_line(s, k + 1, cur, line + 1, byte_offset(s, k + 1));
        } else {
            lemma_block_comment_scan_line(s, k + 1, cur, line, lcb);
        }
    }
}

/// A token is reported on the line the scanner stands on, and the scanner
/// never moves back a line.
proof fn lemma_step_lines<'a>(s: Seq<char>, st: ScanState)
    requires
        spec_next::<'a>(s, st) is Some,
    ensures
        spec_next::<'a>(s, st)->0.line == st.line,
        spec_next::<'a>(s, st)->0.next.line >= st.line,
{
    let st1 = skip_blank(s, st);
    lemma_skip_blank_keeps_line(s, st);
    let i = st1.pos;
    let w = scan_class(s, i + 1, CharClass::Ident);
    lemma_macro_scan_line(s, w, st1.line, false, byte_offset(s, i));
    if char_at_is(s, i + 1, '\'') || char_at_is(s, i + 1, '"') {
        lemma_verbatim_scan_line(s, i + 2, s[i + 1], st1.line, byte_offset(s, i));
    }
    lemma_block_comment_scan_line(s, i + 2, i, st1.line, byte_offset(s, i));
}

/// Tokens come in the order of the source: their line numbers never go down,
/// and none is before the line the scan starts on.
pub proof fn lemma_lines_ordered<'a>(s: Seq<char>, st: ScanState, toks: Seq<Token<'a>>)
    requires
        lexes_to(s, st, toks),
    ensures
        forall|i: int| 0 <= i < toks.len() ==> st.line <= #[trigger] toks[i].line_number,
        forall|i: int, j: int| 0 <= i <= j < toks.len() ==> #[trigger] toks[i].line_number <= #[trigger] toks[j].line_number,
    decreases toks.len(),
{
    if let Some(step) = spec_next::<'a>(s, st) {
        lemma_step_lines(s, st);
        let rest = toks.drop_first();
        lemma_lines_ordered(s, step.next, rest);
        assert forall|i: int| 0 <= i < toks.len() implies st.line <= #[trigger] toks[i].line_number by {
            if i > 0 {
                assert(toks[i] == rest[i - 1]);
            }
        }
        assert forall|i: int, j: int| 0 <= i <= j < toks.len() implies #[trigger] toks[i].line_number
            <= #[trigger] toks[j].line_number by {
            if i > 0 {
                assert(toks[i] == rest[i - 1]);
                assert(toks[j] == rest[j - 1]);
            } else if j > 0 {
                assert(toks[j] == rest[j - 1]);
            }
        }
    }
}

/// How many newline characters stand in `s` from `a` up to `b`.
pub open spec fn newlines_between(s: Seq<char>, a: int, b: int) -> int
    decreases b - a,
{
    if b <= a {
        0
    } else {
        newlines_between(s, a, b - 1) + if s[b - 1] == '\n' { 1int } else { 0int }
    }
}

proof fn lemma_newlines_between_add(s: Seq<char>, a: int, b: int, c: int)
    requires
        a <= b <= c,
    ensures
        newlines_between(s, a, c) == newlines_between(s, a, b) + newlines_between(s, b, c),
    decreases c - b,
{
    if b < c {
        lemma_newlines_between_add(s, a, b, c - 1);
    }
}

proof fn lemma_newlines_between_one(s: Seq<char>, k: int)
    ensures
        newlines_between(s, k, k) == 0,
        newlines_between(s, k, k + 1) == if s[k] == '\n' { 1int } else { 0int },
{
    reveal_with_fuel(newlines_between, 2);
}

proof fn lemma_newlines_between_none(s: Seq<char>, a: int, b: int)
    requires
        forall|k: int| a <= k < b ==> s[k] != '\n',
    ensures
        newlines_between(s, a, b) == 0,
    decreases b - a,
{
    if a < b {
        lemma_newlines_between_none(s, a, b - 1);
    }
}

proof fn lemma_scan_class_no_newline(s: Seq<char>, k: int, class: CharClass)
    requires
        0 <= k,
    ensures
        k <= scan_class(s, k, class),
        newlines_between(s, k, scan_class(s, k, class)) == 0,
    decreases s.len() - k,
{
    if 0 <= k < s.len() && in_class(class, s[k]) {
        lemma_scan_class_no_newline(s, k + 1, class);
        lemma_newlines_between_add(s, k, k + 1, scan_class(s, k, class));
        lemma_newlines_between_one(s, k);
    } else {
        lemma_newlines_between_one(s, k);
    }
}

proof fn lemma_macro_scan_count(s: Seq<char>, k: int, line: int, multiline: bool, lcb: int)
    requires
        0 <= k,
    ensures
        k <= macro_scan(s, k, line, multiline, lcb).0,
        macro_scan(s, k, line, multiline, lcb).1 == line + newlines_between(s, k, macro_scan(s, k, line, multiline, lcb).0),
    decreases s.len() - k,
{
    lemma_newlines_between_one(s, k);
    if 0 <= k < s.len() && s[k] != '\n' {
        let end = macro_scan(s, k, line, multiline, lcb).0;
        lemma_newlines_between_one(s, k);
        if s[k] == '\\' && char_at_is(s, k + 1, '\n') {
            lemma_macro_scan_count(s, k + 2, line + 1, true, byte_offset(s, k + 2));
            lemma_newlines_between_add(s, k, k + 2, end);
            lemma_newlines_between_add(s, k, k + 1, k + 2);
            lemma_newlines_between_one(s, k + 1);
        } else {
            lemma_macro_scan_count(s, k + 1, line, multiline, lcb);
            lemma_newlines_between_add(s, k, k + 1, end);
        }
    }
}

proof fn lemma_verbatim_scan_count(s: Seq<char>, k: int, q: char, line: int, lcb: int)
    requires
        0 <= k,
        q != '\n',
    ensures
        k <= verbatim_scan(s, k, q, line, lcb).0,
        verbatim_scan(s, k, q, line, lcb).1 == line + newlines_between(s, k, verbatim_scan(s, k, q, line, lcb).0),
    decreases s.len() - k,
{
    lemma_newlines_between_one(s, k);
    if 0 <= k < s.len() {
        let end = verbatim_scan(s, k, q, line, lcb).0;
        if s[k] == q {
        } else if s[k] == '\n' {
            lemma_verbatim_scan_count(s, k + 1, q, line + 1, byte_offset(s, k + 1));
            lemma_newlines_between_add(s, k, k + 1, end);
        } else {
            lemma_verbatim_scan_count(s, k + 1, q, line, lcb);
            lemma_newlines_between_add(s, k, k + 1, end);
        }
    }
}

proof fn lemma_block_comment_scan_count(s: Seq<char>, k: int, cur: int, line: int, lcb: int)
    requires
        0 <= k,
    ensures
        k <= block_comment_scan(s, k, cur, line, lcb).0,
        block_comment_scan(s, k, cur, line, lcb).2 == line + newlines_between(
            s,
            k,
            block_comment_scan(s, k, cur, line, lcb).0,
        ),
    decreases s.len() - k,
{
    lemma_newlines_between_one(s, k);
    if 0 <= k < s.len() {
        let stop = block_comment_scan(s, k, cur, line, lcb).0;
        if s[k] == '*' && char_at_is(s, k + 1, '/') {
            lemma_newlines_between_add(s, k, k + 1, k + 2);
            lemma_newlines_between_one(s, k + 1);
        } else if s[k] == '\n' {
            lemma_block_comment_scan_count(s, k + 1, cur, line + 1, byte_offset(s, k + 1));
            lemma_newlines_between_add(s, k, k + 1, stop);
        } else {
            lemma_block_comment_scan_count(s, k + 1, cur, line, lcb);
            lemma_newlines_between_add(s, k, k + 1, stop);
        }
    }
}

proof fn lemma_quoted_scan_no_newline(s: Seq<char>, k: int, cur: int, q: char, escape_backslash: bool)
    requires
        0 <= k,
        q != '\n',
    ensures
        k <= quoted_scan(s, k, cur, q, escape_backslash).0,
        newlines_between(s, k, quoted_scan(s, k, cur, q, escape_backslash).0) == 0,
    decreases s.len() - k,
{
    lemma_newlines_between_one(s, k);
    if 0 <= k < s.len() && s[k] != '\n' {
        let stop = quoted_scan(s, k, cur, q, escape_backslash).0;
        if s[k] == '\\' {
            if char_at_is(s, k + 1, q) || (escape_backslash && char_at_is(s, k + 1, '\\')) {
                lemma_quoted_scan_no_newline(s, k + 2, k + 2, q, escape_backslash);
                lemma_newlines_between_add(s, k, k + 2, stop);
                lemma_newlines_between_add(s, k, k + 1, k + 2);
                lemma_newlines_between_one(s, k + 1);
            } else {
                lemma_quoted_scan_no_newline(s, k + 1, cur, q, escape_backslash);
                lemma_newlines_between_add(s, k, k + 1, stop);
            }
        } else if s[k] == q {
        } else {
            lemma_quoted_scan_no_newline(s, k + 1, k + 1, q, escape_backslash);
            lemma_newlines_between_add(s, k, k + 1, stop);
        }
    }
}

proof fn lemma_skip_blank_count(s: Seq<char>, st: ScanState)
    requires
        0 <= st.pos,
    ensures
        st.pos <= skip_blank(s, st).pos,
        skip_blank(s, st).line == st.line,
        newlines_between(s, st.pos, skip_blank(s, st).pos) == 0,
    decreases s.len() - st.pos,
{
    lemma_newlines_between_one(s, st.pos);
    if 0 <= st.pos < s.len() && is_blank(s[st.pos]) {
        let st2 = ScanState { pos: st.pos + 1, line: st.line, col: if s[st.pos] == '\r' { st.col } else { st.col + 1 } };
        lemma_skip_blank_count(s, st2);
        lemma_newlines_between_add(s, st.pos, st.pos + 1, skip_blank(s, st).pos);
    }
}

proof fn lemma_lex_at_counts<'a>(s: Seq<char>, st: ScanState)
    requires
        0 <= st.pos < s.len(),
    ensures
        st.pos <= lex_at::<'a>(s, st).next.pos,
        lex_at::<'a>(s, st).next.line == st.line + newlines_between(s, st.pos, lex_at::<'a>(s, st).next.pos),
{
    let i = st.pos;
    let c = s[i];
    lemma_newlines_between_one(s, i);
    lemma_newlines_between_one(s, i + 1);
    lemma_newlines_between_add(s, i, i + 1, i + 2);
    let w = scan_class(s, i + 1, CharClass::Ident);
    lemma_scan_class_no_newline(s, i + 1, CharClass::Ident);
    lemma_newlines_between_add(s, i, i + 1, w);
    lemma_scan_class_no_newline(s, w, CharClass::NotNewline);
    lemma_newlines_between_add(s, i, w, scan_class(s, w, CharClass::NotNewline));
    lemma_macro_scan_count(s, w, st.line, false, byte_offset(s, i));
    lemma_newlines_between_add(s, i, w, macro_scan(s, w, st.line, false, byte_offset(s, i)).0);
    lemma_scan_class_no_newline(s, i + 1, CharClass::Dec);
    lemma_newlines_between_add(s, i, i + 1, scan_class(s, i + 1, CharClass::Dec));
    lemma_scan_class_no_newline(s, i + 1, CharClass::Hex);
    lemma_newlines_between_add(s, i, i + 1, scan_class(s, i + 1, CharClass::Hex));
    lemma_scan_class_no_newline(s, i + 1, CharClass::SpaceOrTab);
    lemma_newlines_between_add(s, i, i + 1, scan_class(s, i + 1, CharClass::SpaceOrTab));
    if c == '#' {
        assert(lex_at::<'a>(s, st) == lex_directive::<'a>(s, st));
    } else if c == '@' {
        if char_at_is(s, i + 1, '\'') || char_at_is(s, i + 1, '"') {
            lemma_verbatim_scan_count(s, i + 2, s[i + 1], st.line, byte_offset(s, i));
            lemma_newlines_between_add(s, i, i + 2, verbatim_scan(s, i + 2, s[i + 1], st.line, byte_offset(s, i)).0);
        }
    } else if c == '"' || c == '\'' {
        lemma_quoted_scan_no_newline(s, i + 1, i, c, c == '"');
        lemma_newlines_between_add(s, i, i + 1, quoted_scan(s, i + 1, i, c, c == '"').0);
    } else if c == '/' {
        lemma_scan_class_no_newline(s, i + 2, CharClass::NotNewline);
        lemma_newlines_between_add(s, i, i + 2, scan_class(s, i + 2, CharClass::NotNewline));
        lemma_block_comment_scan_count(s, i + 2, i, st.line, byte_offset(s, i));
        lemma_newlines_between_add(s, i, i + 2, block_comment_scan(s, i + 2, i, st.line, byte_offset(s, i)).0);
    } else if is_dec_digit(c) {
        lemma_scan_class_no_newline(s, i + 2, CharClass::Hex);
        lemma_newlines_between_add(s, i, i + 2, scan_class(s, i + 2, CharClass::Hex));
        let k = scan_class(s, i + 1, CharClass::Dec);
        lemma_newlines_between_one(s, k);
        lemma_newlines_between_add(s, i, k, k + 1);
        lemma_scan_class_no_newline(s, k + 1, CharClass::Dec);
        lemma_newlines_between_add(s, i, k + 1, scan_class(s, k + 1, CharClass::Dec));
    }
}

/// Each step of the scan moves the scanner on by one line for each newline
/// character that it passes, and by none otherwise: the line the scanner stands
/// on is the line it started on plus the newlines it has passed.
pub proof fn lemma_step_counts_newlines<'a>(s: Seq<char>, st: ScanState)
    requires
        0 <= st.pos,
        spec_next::<'a>(s, st) is Some,
    ensures
        st.pos <= spec_next::<'a>(s, st)->0.next.pos,
        spec_next::<'a>(s, st)->0.next.line == st.line + newlines_between(
            s,
            st.pos,
            spec_next::<'a>(s, st)->0.next.pos,
        ),
{
    let st1 = skip_blank(s, st);
    lemma_skip_blank_count(s, st);
    lemma_lex_at_counts(s, st1);
    lemma_newlines_between_add(s, st.pos, st1.pos, lex_at::<'a>(s, st1).next.pos);
}

/// Where the scanner stands after `n` steps of the scan from `st`.
pub open spec fn scan_state_after(s: Seq<char>, st: ScanState, n: nat) -> ScanState
    decreases n,
{
    if n == 0 {
        st
    } else {
        match spec_next::<'static>(s, st) {
            Some(step) => scan_state_after(s, step.next, (n - 1) as nat),
            None => st,
        }
    }
}

proof fn lemma_scan_state_after_forward(s: Seq<char>, st: ScanState, n: nat)
    requires
        0 <= st.pos,
    ensures
        st.pos <= scan_state_after(s, st, n).pos,
    decreases n,
{
    if n > 0 {
        if let Some(step) = spec_next::<'static>(s, st) {
            lemma_step_counts_newlines(s, st);
            lemma_scan_state_after_forward(s, step.next, (n - 1) as nat);
        }
    }
}

/// Each token of a scan stands on the line where it starts: the line the scan
/// started on plus the newline characters before the token's first character.
pub proof fn lemma_token_lines_count_newlines<'a>(s: Seq<char>, st: ScanState, toks: Seq<Token<'a>>)
    requires
        0 <= st.pos,
        lexes_to(s, st, toks),
    ensures
        forall|i: int|
            0 <= i < toks.len() ==> #[trigger] toks[i].line_number == st.line + newlines_between(
                s,
                st.pos,
                skip_blank(s, scan_state_after(s, st, i as nat)).pos,
            ),
    decreases toks.len(),
{
    if let Some(step) = spec_next::<'a>(s, st) {
        lemma_step_counts_newlines(s, st);
        lemma_step_lines(s, st);
        lemma_skip_blank_count(s, st);
        let rest = toks.drop_first();
        lemma_token_lines_count_newlines(s, step.next, rest);
        assert forall|i: int| 0 <= i < toks.len() implies #[trigger] toks[i].line_number == st.line
            + newlines_between(s, st.pos, skip_blank(s, scan_state_after(s, st, i as nat)).pos) by {
            if i > 0 {
                assert(toks[i] == rest[i - 1]);
                let after = scan_state_after(s, step.next, (i - 1) as nat);
                assert(scan_state_after(s, st, i as nat) == after);
                lemma_scan_state_after_forward(s, step.next, (i - 1) as nat);
                lemma_skip_blank_count(s, after);
                lemma_newlines_between_add(s, st.pos, step.next.pos, skip_blank(s, after).pos);
            }
        }
    }
}

/// A token that is a newline, or whose text is not a lone newline.
pub open spec fn scanned_ok<'a>(t: Token<'a>) -> bool {
    t.token_type is Newline || t.token_type.spec_name() != seq!['\n']
}

proof fn lemma_scan_class_bounds(s: Seq<char>, k: int, class: CharClass)
    requires
        0 <= k <= s.len(),
    ensures
        k <= scan_class(s, k, class) <= s.len(),
    decreases s.len() - k,
{
    if k < s.len() && in_class(class, s[k]) {
        lemma_scan_class_bounds(s, k + 1, class);
    }
}

proof fn lemma_macro_scan_bounds(s: Seq<char>, k: int, line: int, multiline: bool, lcb: int)
    requires
        0 <= k <= s.len(),
    ensures
        k <= macro_scan(s, k, line, multiline, lcb).0 <= s.len(),
    decreases s.len() - k,
{
    if k < s.len() && s[k] != '\n' {
        if s[k] == '\\' && char_at_is(s, k + 1, '\n') {
            lemma_macro_scan_bounds(s, k + 2, line + 1, true, byte_offset(s, k + 2));
        } else {
            lemma_macro_scan_bounds(s, k + 1, line, multiline, lcb);
        }
    }
}

proof fn lemma_verbatim_scan_bounds(s: Seq<char>, k: int, q: char, line: int, lcb: int)
    requires
        0 <= k <= s.len(),
    ensures
        k <= verbatim_scan(s, k, q, line, lcb).0 <= s.len(),
    decreases s.len() - k,
{
    if k < s.len() && s[k] != q {
        if s[k] == '\n' {
            lemma_verbatim_scan_bounds(s, k + 1, q, line + 1, byte_offset(s, k + 1));
        } else {
            lemma_verbatim_scan_bounds(s, k + 1, q, line, lcb);
        }
    }
}

proof fn lemma_quoted_scan_bounds(s: Seq<char>, k: int, cur: int, q: char, escape_backslash: bool)
    requires
        0 <= cur <= k <= s.len(),
    ensures
        cur <= quoted_scan(s, k, cur, q, escape_backslash).1 <= s.len(),
    decreases s.len() - k,
{
    if k < s.len() && s[k] != '\n' {
        if s[k] == '\\' {
            if char_at_is(s, k + 1, q) || (escape_backslash && char_at_is(s, k + 1, '\\')) {
                lemma_quoted_scan_bounds(s, k + 2, k + 2, q, escape_backslash);
            } else {
                lemma_quoted_scan_bounds(s, k + 1, cur, q, escape_backslash);
            }
        } else if s[k] != q {
            lemma_quoted_scan_bounds(s, k + 1, k + 1, q, escape_backslash);
        }
    }
}

proof fn lemma_block_comment_scan_bounds(s: Seq<char>, k: int, cur: int, line: int, lcb: int)
    requires
        0 <= cur <= k <= s.len(),
    ensures
        cur <= block_comment_scan(s, k, cur, line, lcb).1 <= s.len(),
    decreases s.len() - k,
{
    if k < s.len() && !(s[k] == '*' && char_at_is(s, k + 1, '/')) {
        if s[k] == '\n' {
            lemma_block_comment_scan_bounds(s, k + 1, cur, line + 1, byte_offset(s, k + 1));
        } else {
            lemma_block_comment_scan_bounds(s, k + 1, cur, line, lcb);
        }
    }
}

/// A fixed token of the scan is a newline or a variant without text; the
/// text of any other starts where the scanner stands, at a character that is
/// not a newline, and lies within the source.
proof fn lemma_lex_at_shape<'a>(s: Seq<char>, st: ScanState)
    requires
        0 <= st.pos < s.len(),
    ensures
        match lex_at::<'a>(s, st).lexeme {
            Lexeme::Fixed(tt) => tt is Newline || tt.is_plain(),
            Lexeme::Text(_, a, b) => a == st.pos && a <= b <= s.len() && s[a] != '\n',
        },
{
    let i = st.pos;
    lemma_scan_class_bounds(s, i + 1, CharClass::Ident);
    lemma_scan_class_bounds(s, i + 1, CharClass::Dec);
    lemma_scan_class_bounds(s, i + 1, CharClass::Hex);
    lemma_scan_class_bounds(s, i + 1, CharClass::SpaceOrTab);
    if i + 2 <= s.len() {
        lemma_scan_class_bounds(s, i + 2, CharClass::NotNewline);
        lemma_scan_class_bounds(s, i + 2, CharClass::Hex);
        lemma_block_comment_scan_bounds(s, i + 2, i, st.line, byte_offset(s, i));
        lemma_verbatim_scan_bounds(s, i + 2, s[i + 1], st.line, byte_offset(s, i));
    }
    lemma_quoted_scan_bounds(s, i + 1, i, '"', true);
    lemma_quoted_scan_bounds(s, i + 1, i, '\'', false);
    let w = scan_class(s, i + 1, CharClass::Ident);
    lemma_scan_class_bounds(s, w, CharClass::NotNewline);
    lemma_macro_scan_bounds(s, w, st.line, false, byte_offset(s, i));
    let k = scan_class(s, i + 1, CharClass::Dec);
    if k + 1 <= s.len() {
        lemma_scan_class_bounds(s, k + 1, CharClass::Dec);
    }
    let wd = scan_class(s, i + 1, CharClass::Ident);
    if keyword_map().contains_key(s.subrange(i, wd)) {
        assert(keyword_type::<'a>(keyword_map()[s.subrange(i, wd)]).is_plain());
    }
}

/// Every token of a scan is a newline or has a text that is not a lone newline.
pub proof fn lemma_tokens_scanned_ok<'a>(s: Seq<char>, st: ScanState, toks: Seq<Token<'a>>)
    requires
        lexes_to(s, st, toks),
    ensures
        forall|i: int| 0 <= i < toks.len() ==> scanned_ok(#[trigger] toks[i]),
    decreases toks.len(),
{
    if let Some(step) = spec_next::<'a>(s, st) {
        let st1 = skip_blank(s, st);
        lemma_lex_at_shape(s, st1);
        let rest = toks.drop_first();
        lemma_tokens_scanned_ok(s, step.next, rest);
        let t = toks[0];
        match step.lexeme {
            Lexeme::Fixed(tt) => {
                if !(tt is Newline) {
                    lemma_plain_name_not_newline(tt);
                }
            },
            Lexeme::Text(kind, a, b) => {
                let text = s.subrange(a, b);
                assert(t.token_type.spec_name() == t.token_type.payload());
                if text.len() == 1 {
                    assert(text[0] == s[a]);
                }
                assert(text != seq!['\n']);
            },
        }
        assert forall|i: int| 0 <= i < toks.len() implies scanned_ok(#[trigger] toks[i]) by {
            if i > 0 {
                assert(toks[i] == rest[i - 1]);
            }
        }
    }
}

/// The token kinds spelled with punctuation alone.
pub open spec fn is_punctuation(tt: TokenType) -> bool {
    match tt {
        TokenType::LeftParen
        | TokenType::RightParen
        | TokenType::LeftBrace
        | TokenType::RightBrace
        | TokenType::LeftBracket
        | TokenType::RightBracket
        | TokenType::Comma
        | TokenType::Dot
        | TokenType::Colon
        | TokenType::Semicolon
        | TokenType::Slash
        | TokenType::Backslash
        | TokenType::Star
        | TokenType::Mod
        | TokenType::PlusEquals
        | TokenType::MinusEquals
        | TokenType::StarEquals
        | TokenType::SlashEquals
        | TokenType::BitXorEquals
        | TokenType::BitOrEquals
        | TokenType::BitAndEquals
        | TokenType::ModEquals
        | TokenType::ListIndexer
        | TokenType::MapIndexer
        | TokenType::GridIndexer
        | TokenType::ArrayIndexer
        | TokenType::Minus
        | TokenType::Plus
        | TokenType::Incrementer
        | TokenType::Decrementer
        | TokenType::Bang
        | TokenType::Hook
        | TokenType::Tilde
        | TokenType::LessThanGreaterThan
        | TokenType::LogicalAnd
        | TokenType::LogicalOr
        | TokenType::LogicalXor
        | TokenType::BitAnd
        | TokenType::BitOr
        | TokenType::BitXor
        | TokenType::BitLeft
        | TokenType::BitRight
        | TokenType::BangEqual
        | TokenType::Equal
        | TokenType::EqualEqual
        | TokenType::Greater
        | TokenType::GreaterEqual
        | TokenType::Less
        | TokenType::LessEqual => true,
        _ => false,
    }
}

/// Each token spelled with punctuation alone is what its own spelling scans
/// to: the whole spelling, as one token of that kind. So the printed name of
/// such a token reads back as the same token.
#[verifier::spinoff_prover]
pub proof fn lemma_punctuation_rescans<'a>(tt: TokenType<'a>)
    requires
        is_punctuation(tt),
    ensures
        lexes_to(tt.spec_name(), start_state(), seq![Token { token_type: tt, line_number: 0, column_number: 0 }]),
{
    reveal_with_fuel(lexes_to, 2);
    let t = Token { token_type: tt, line_number: 0, column_number: 0 };
    match tt {
        TokenType::LeftParen => {
            reveal_strlit("(");
            assert(lexes_to(tt.spec_name(), start_state(), seq![t]));
        },
        TokenType::RightParen => {
            reveal_strlit(")");
            assert(lexes_to(tt.spec_name(), start_state(), seq![t]));
        },
        TokenType::LeftBrace => {
            reveal_strlit("{");
            assert(lexes_to(tt.spec_name(), start_state(), seq![t]));
        },
        TokenType::RightBrace => {
            reveal_strlit("}");
            assert(lexes_to(tt.spec_name(), start_state(), seq![t]));
        },
        TokenType::LeftBracket => {
            reveal_strlit("[");
            assert(lexes_to(tt.spec_name(), start_state(), seq![t]));
        },
        TokenType::RightBracket => {
            reveal_strlit("]");
            assert(lexes_to(tt.spec_name(), start_state(), seq![t]));
        },
        TokenType::Comma => {
            reveal_strlit(",");
            assert(lexes_to(tt.spec_name(), start_state(), seq![t]));
        },
        TokenType::Dot => {
            reveal_strlit(".");
            assert(lexes_to(tt.spec_name(), start_state(), seq![t]));
        },
        TokenType::Colon => {
            reveal_strlit(":");
            assert(lexes_to(tt.spec_name(), start_state(), seq![t]));
        },
        TokenType::Semicolon => {
            reveal_strlit(";");
            assert(lexes_to(tt.spec_name(), start_state(), seq![t]));
        },
        TokenType::Slash => {
            reveal_strlit("/");
            assert(lexes_to(tt.spec_name(), start_state(), seq![t]));
        },
        TokenType::Backslash => {
            reveal_strlit("\\");
            assert(lexes_to(tt.spec_name(), start_state(), seq![t]));
        },
        TokenType::Star => {
            reveal_strlit("*");
            assert(lexes_to(tt.spec_name(), start_state(), seq![t]));
        },
        TokenType::Mod => {
            reveal_strlit("%");
            assert(lexes_to(tt.spec_name(), start_state(), seq![t]));
        },
        TokenType::PlusEquals => {
            reveal_strlit("+=");
            assert(lexes_to(tt.spec_name(), start_state(), seq![t]));
        },
        TokenType::MinusEquals => {
            reveal_strlit("-=");
            assert(lexes_to(tt.spec_name(), start_state(), seq![t]));
        },
        TokenType::StarEquals => {
            reveal_strlit("*=");
            assert(lexes_to(tt.spec_name(), start_state(), seq![t]));
        },
        TokenType::SlashEquals => {
            reveal_strlit("/=");
            assert(lexes_to(tt.spec_name(), start_state(), seq![t]));
        },
        TokenType::BitXorEquals => {
            reveal_strlit("^=");
            assert(lexes_to(tt.spec_name(), start_state(), seq![t]));
        },
        TokenType::BitOrEquals => {
            reveal_strlit("|=");
            assert(lexes_to(tt.spec_name(), start_state(), seq![t]));
        },
        TokenType::BitAndEquals => {
            reveal_strlit("&=");
            assert(lexes_to(tt.spec_name(), start_state(), seq![t]));
        },
        TokenType::ModEquals => {
            reveal_strlit("%=");
            assert(lexes_to(tt.spec_name(), start_state(), seq![t]));
        },
        TokenType::ListIndexer => {
            reveal_strlit("[|");
            assert(lexes_to(tt.spec_name(), start_state(), seq![t]));
        },
        TokenType::MapIndexer => {
            reveal_strlit("[?");
            assert(lexes_to(tt.spec_name(), start_state(), seq![t]));
        },
        TokenType::GridIndexer => {
            reveal_strlit("[#");
            assert(lexes_to(tt.spec_name(), start_state(), seq![t]));
        },
        TokenType::ArrayIndexer => {
            reveal_strlit("[@");
            assert(lexes_to(tt.spec_name(), start_state(), seq![t]));
        },
        TokenType::Minus => {
            reveal_strlit("-");
            assert(lexes_to(tt.spec_name(), start_state(), seq![t]));
        },
        TokenType::Plus => {
            reveal_strlit("+");
            assert(lexes_to(tt.spec_name(), start_state(), seq![t]));
        },
        TokenType::Incrementer => {
            reveal_strlit("++");
            assert(lexes_to(tt.spec_name(), start_state(), seq![t]));
        },
        TokenType::Decrementer => {
            reveal_strlit("--");
            assert(lexes_to(tt.spec_name(), start_state(), seq![t]));
        },
        TokenType::Bang => {
            reveal_strlit("!");
            assert(lexes_to(tt.spec_name(), start_state(), seq![t]));
        },
        TokenType::Hook => {
            reveal_strlit("?");
            assert(lexes_to(tt.spec_name(), start_state(), seq![t]));
        },
        TokenType::Tilde => {
            reveal_strlit("~");
            assert(lexes_to(tt.spec_name(), start_state(), seq![t]));
        },
        TokenType::LessThanGreaterThan => {
            reveal_strlit("<>");
            assert(lexes_to(tt.spec_name(), start_state(), seq![t]));
        },
        TokenType::LogicalAnd => {
            reveal_strlit("&&");
            assert(lexes_to(tt.spec_name(), start_state(), seq![t]));
        },
        TokenType::LogicalOr => {
            reveal_strlit("||");
            assert(lexes_to(tt.spec_name(), start_state(), seq![t]));
        },
        TokenType::LogicalXor => {
            reveal_strlit("^^");
            assert(lexes_to(tt.spec_name(), start_state(), seq![t]));
        },
        TokenType::BitAnd => {
            reveal_strlit("&");
            assert(lexes_to(tt.spec_name(), start_state(), seq![t]));
        },
        TokenType::BitOr => {
            reveal_strlit("|");
            assert(lexes_to(tt.spec_name(), start_state(), seq![t]));
        },
        TokenType::BitXor => {
            reveal_strlit("^");
            assert(lexes_to(tt.spec_name(), start_state(), seq![t]));
        },
        TokenType::BitLeft => {
            reveal_strlit("<<");
            assert(lexes_to(tt.spec_name(), start_state(), seq![t]));
        },
        TokenType::BitRight => {
            reveal_strlit(">>");
            assert(lexes_to(tt.spec_name(), start_state(), seq![t]));
        },
        TokenType::BangEqual => {
            reveal_strlit("!=");
            assert(lexes_to(tt.spec_name(), start_state(), seq![t]));
        },
        TokenType::Equal => {
            reveal_strlit("=");
            assert(lexes_to(tt.spec_name(), start_state(), seq![t]));
        },
        TokenType::EqualEqual => {
            reveal_strlit("==");
            assert(lexes_to(tt.spec_name(), start_state(), seq![t]));
        },
        TokenType::Greater => {
            reveal_strlit(">");
            assert(lexes_to(tt.spec_name(), start_state(), seq![t]));
        },
        TokenType::GreaterEqual => {
            reveal_strlit(">=");
            assert(lexes_to(tt.spec_name(), start_state(), seq![t]));
        },
        TokenType::Less => {
            reveal_strlit("<");
            assert(lexes_to(tt.spec_name(), start_state(), seq![t]));
        },
        TokenType::LessEqual => {
            reveal_strlit("<=");
            assert(lexes_to(tt.spec_name(), start_state(), seq![t]));
        },
        _ => {},
    }
}

/// The number of backslashes right before index `k`, looking back no further than `lo`.
pub open spec fn backslashes_before(s: Seq<char>, lo: int, k: int) -> nat
    decreases k - lo,
{
    if lo < k && 0 < k <= s.len() && s[k - 1] == '\\' {
        1 + backslashes_before(s, lo, k - 1)
    } else {
        0
    }
}

/// Scanning the body of a double-quoted string from `k`, where the backslashes
/// before `k` (back to the opening quote at `a`) are paired, or the character at
/// `k` is neither a backslash nor a quote: every quote before the text's end
/// follows an odd run of backslashes, and a quote that ends the text (where the
/// scan stops after it, short of the end and of a newline) follows an even run.
proof fn lemma_double_quoted_escapes(s: Seq<char>, a: int, k: int, cur: int)
    requires
        0 <= a < k,
        cur <= k,
        backslashes_before(s, a + 1, k) % 2 == 0 || k >= s.len() || (s[k] != '\\' && s[k] != '"'),
    ensures
        ({
            let (stop, end) = quoted_scan(s, k, cur, '"', true);
            &&& forall|j: int| k <= j < end - 1 && s[j] == '"' ==> #[trigger] backslashes_before(s, a + 1, j) % 2 == 1
            &&& stop < s.len() ==> stop == end
            &&& stop == end && end < s.len() && s[end] != '\n' ==> k <= end - 1 && s[end - 1] == '"'
                && backslashes_before(s, a + 1, end - 1) % 2 == 0
        }),
    decreases s.len() - k,
{
    if 0 <= k < s.len() {
        if s[k] == '\n' {
        } else if s[k] == '\\' {
            if char_at_is(s, k + 1, '"') || char_at_is(s, k + 1, '\\') {
                assert(backslashes_before(s, a + 1, k + 1) == 1 + backslashes_before(s, a + 1, k));
                if s[k + 1] == '\\' {
                    assert(backslashes_before(s, a + 1, k + 2) == 1 + backslashes_before(s, a + 1, k + 1));
                } else {
                    assert(backslashes_before(s, a + 1, k + 2) == 0);
                }
                lemma_double_quoted_escapes(s, a, k + 2, k + 2);
            } else {
                lemma_double_quoted_escapes(s, a, k + 1, cur);
            }
        } else if s[k] == '"' {
        } else {
            assert(backslashes_before(s, a + 1, k + 1) == 0);
            lemma_double_quoted_escapes(s, a, k + 1, k + 1);
        }
    }
}

/// A double-quoted string runs past every quote that a backslash escapes: each
/// quote inside its text follows an odd run of backslashes, and the quote that
/// closes it (where the scan goes on past it, on the same line) follows an even
/// run. So in `"a\"b"` the escaped quote does not end the string.
pub proof fn lemma_double_quoted_string<'a>(s: Seq<char>, st: ScanState)
    requires
        0 <= skip_blank(s, st).pos < s.len(),
        s[skip_blank(s, st).pos] == '"',
    ensures
        spec_next::<'a>(s, st) is Some,
        ({
            let step = spec_next::<'a>(s, st)->0;
            let a = skip_blank(s, st).pos;
            &&& step.lexeme matches Lexeme::Text(kind, a2, b) && kind is String && a2 == a && a <= b <= s.len()
            &&& forall|j: int|
                a < j < step.lexeme->Text_2 - 1 && s[j] == '"' ==> #[trigger] backslashes_before(s, a + 1, j) % 2 == 1
            &&& ({
                let b = step.lexeme->Text_2;
                b - 1 > a && s[b - 1] == '"' && step.next.pos == b && b < s.len() && s[b] != '\n'
                    ==> backslashes_before(s, a + 1, b - 1) % 2 == 0
            })
            &&& step.next.pos < s.len() ==> step.next.pos == step.lexeme->Text_2 && (s[step.next.pos] == '\n' || (
                step.lexeme->Text_2 - 1 > a && s[step.lexeme->Text_2 - 1] == '"'))
        }),
{
    let a = skip_blank(s, st).pos;
    lemma_quoted_scan_bounds(s, a + 1, a, '"', true);
    assert(backslashes_before(s, a + 1, a + 1) == 0);
    lemma_double_quoted_escapes(s, a, a + 1, a);
}

/// A character that starts a token spelled with punctuation alone.
pub open spec fn is_punctuation_start(c: char) -> bool {
    c == '(' || c == ')' || c == '{' || c == '}' || c == '[' || c == ']' || c == ',' || c == '.' || c == ':' || c == ';' || c == '/' || c == '\\' || c == '*' || c == '%' || c == '+' || c == '-' || c == '!' || c == '?' || c == '~' || c == '<' || c == '>' || c == '&' || c == '|' || c == '^' || c == '='
}

/// A token spelled with punctuation alone is spelled in the source as it is
/// printed: the characters it was scanned from are its name.
#[verifier::spinoff_prover]
#[verifier::rlimit(50)]
pub proof fn lemma_punctuation_spelled_as_scanned<'a>(s: Seq<char>, st: ScanState)
    requires
        0 <= skip_blank(s, st).pos < s.len(),
        is_punctuation_start(s[skip_blank(s, st).pos]),
        spec_next::<'a>(s, st)->0.lexeme is Fixed,
    ensures
        ({
            let step = spec_next::<'a>(s, st)->0;
            let a = skip_blank(s, st).pos;
            &&& is_punctuation(step.lexeme->Fixed_0)
            &&& a < step.next.pos <= s.len()
            &&& s.subrange(a, step.next.pos) == step.lexeme->Fixed_0.spec_name()
        }),
{
    reveal_strlit("(");
    reveal_strlit(")");
    reveal_strlit("{");
    reveal_strlit("}");
    reveal_strlit("[");
    reveal_strlit("]");
    reveal_strlit(",");
    reveal_strlit(".");
    reveal_strlit(":");
    reveal_strlit(";");
    reveal_strlit("/");
    reveal_strlit("\\");
    reveal_strlit("*");
    reveal_strlit("%");
    reveal_strlit("+=");
    reveal_strlit("-=");
    reveal_strlit("*=");
    reveal_strlit("/=");
    reveal_strlit("^=");
    reveal_strlit("|=");
    reveal_strlit("&=");
    reveal_strlit("%=");
    reveal_strlit("[|");
    reveal_strlit("[?");
    reveal_strlit("[#");
    reveal_strlit("[@");
    reveal_strlit("-");
    reveal_strlit("+");
    reveal_strlit("++");
    reveal_strlit("--");
    reveal_strlit("!");
    reveal_strlit("?");
    reveal_strlit("~");
    reveal_strlit("<>");
    reveal_strlit("&&");
    reveal_strlit("||");
    reveal_strlit("^^");
    reveal_strlit("&");
    reveal_strlit("|");
    reveal_strlit("^");
    reveal_strlit("<<");
    reveal_strlit(">>");
    reveal_strlit("!=");
    reveal_strlit("=");
    reveal_strlit("==");
    reveal_strlit(">");
    reveal_strlit(">=");
    reveal_strlit("<");
    reveal_strlit("<=");
    let a = skip_blank(s, st).pos;
    let step = spec_next::<'a>(s, st)->0;
    assert(s.subrange(a, step.next.pos) =~= step.lexeme->Fixed_0.spec_name());
}

/// The token kinds that are reserved words.
pub open spec fn is_reserved_word(tt: TokenType) -> bool {
    match tt {
        TokenType::Var
        | TokenType::AndAlias
        | TokenType::OrAlias
        | TokenType::NotAlias
        | TokenType::If
        | TokenType::Else
        | TokenType::Function
        | TokenType::Constructor
        | TokenType::New
        | TokenType::Delete
        | TokenType::Return
        | TokenType::For
        | TokenType::Repeat
        | TokenType::While
        | TokenType::Do
        | TokenType::Until
        | TokenType::Switch
        | TokenType::Case
        | TokenType::DefaultCase
        | TokenType::ModAlias
        | TokenType::Div
        | TokenType::Break
        | TokenType::Exit
        | TokenType::Enum
        | TokenType::With
        | TokenType::Then
        | TokenType::GlobalVar => true,
        _ => false,
    }
}

/// Each reserved word is what its own spelling scans to: the whole word, as
/// one token of that kind. So the printed name of a reserved word reads back as
/// the same token.
#[verifier::spinoff_prover]
#[verifier::rlimit(100)]
pub proof fn lemma_reserved_word_rescans<'a>(tt: TokenType<'a>)
    requires
        is_reserved_word(tt),
    ensures
        lexes_to(tt.spec_name(), start_state(), seq![Token { token_type: tt, line_number: 0, column_number: 0 }]),
{
    reveal_with_fuel(lexes_to, 2);
    reveal_with_fuel(scan_class, 12);
    reveal_strlit("var");
    reveal_strlit("and");
    reveal_strlit("or");
    reveal_strlit("not");
    reveal_strlit("if");
    reveal_strlit("else");
    reveal_strlit("function");
    reveal_strlit("constructor");
    reveal_strlit("new");
    reveal_strlit("delete");
    reveal_strlit("return");
    reveal_strlit("for");
    reveal_strlit("repeat");
    reveal_strlit("while");
    reveal_strlit("do");
    reveal_strlit("until");
    reveal_strlit("switch");
    reveal_strlit("case");
    reveal_strlit("default");
    reveal_strlit("mod");
    reveal_strlit("div");
    reveal_strlit("break");
    reveal_strlit("exit");
    reveal_strlit("enum");
    reveal_strlit("with");
    reveal_strlit("then");
    reveal_strlit("globalvar");
    let t = Token { token_type: tt, line_number: 0, column_number: 0 };
    let w = tt.spec_name();
    match tt {
        TokenType::Var => {
            assert(w.subrange(0, w.len() as int) =~= w);
            assert(w[0] != "and"@[0]);
            assert(w[0] != "not"@[0]);
            assert(w[0] != "new"@[0]);
            assert(w[0] != "for"@[0]);
            assert(w[0] != "mod"@[0]);
            assert(w[0] != "div"@[0]);
            assert(keyword_map()[w] == 0u8);
            assert(lexes_to(w, start_state(), seq![t]));
        },
        TokenType::AndAlias => {
            assert(w.subrange(0, w.len() as int) =~= w);
            assert(w[0] != "not"@[0]);
            assert(w[0] != "new"@[0]);
            assert(w[0] != "for"@[0]);
            assert(w[0] != "mod"@[0]);
            assert(w[0] != "div"@[0]);
            assert(keyword_map()[w] == 1u8);
            assert(lexes_to(w, start_state(), seq![t]));
        },
        TokenType::OrAlias => {
            assert(w.subrange(0, w.len() as int) =~= w);
            assert(w[0] != "if"@[0]);
            assert(w[0] != "do"@[0]);
            assert(keyword_map()[w] == 2u8);
            assert(lexes_to(w, start_state(), seq![t]));
        },
        TokenType::NotAlias => {
            assert(w.subrange(0, w.len() as int) =~= w);
            assert(w[1] != "new"@[1]);
            assert(w[0] != "for"@[0]);
            assert(w[0] != "mod"@[0]);
            assert(w[0] != "div"@[0]);
            assert(keyword_map()[w] == 3u8);
            assert(lexes_to(w, start_state(), seq![t]));
        },
        TokenType::If => {
            assert(w.subrange(0, w.len() as int) =~= w);
            assert(w[0] != "do"@[0]);
            assert(keyword_map()[w] == 4u8);
            assert(lexes_to(w, start_state(), seq![t]));
        },
        TokenType::Else => {
            assert(w.subrange(0, w.len() as int) =~= w);
            assert(w[0] != "case"@[0]);
            assert(w[1] != "exit"@[1]);
            assert(w[1] != "enum"@[1]);
            assert(w[0] != "with"@[0]);
            assert(w[0] != "then"@[0]);
            assert(keyword_map()[w] == 5u8);
            assert(lexes_to(w, start_state(), seq![t]));
        },
        TokenType::Function => {
            assert(w.subrange(0, w.len() as int) =~= w);
            assert(keyword_map()[w] == 6u8);
            assert(lexes_to(w, start_state(), seq![t]));
        },
        TokenType::Constructor => {
            assert(w.subrange(0, w.len() as int) =~= w);
            assert(keyword_map()[w] == 7u8);
            assert(lexes_to(w, start_state(), seq![t]));
        },
        TokenType::New => {
            assert(w.subrange(0, w.len() as int) =~= w);
            assert(w[0] != "for"@[0]);
            assert(w[0] != "mod"@[0]);
            assert(w[0] != "div"@[0]);
            assert(keyword_map()[w] == 8u8);
            assert(lexes_to(w, start_state(), seq![t]));
        },
        TokenType::Delete => {
            assert(w.subrange(0, w.len() as int) =~= w);
            assert(w[0] != "return"@[0]);
            assert(w[0] != "repeat"@[0]);
            assert(w[0] != "switch"@[0]);
            assert(keyword_map()[w] == 9u8);
            assert(lexes_to(w, start_state(), seq![t]));
        },
        TokenType::Return => {
            assert(w.subrange(0, w.len() as int) =~= w);
            assert(w[2] != "repeat"@[2]);
            assert(w[0] != "switch"@[0]);
            assert(keyword_map()[w] == 10u8);
            assert(lexes_to(w, start_state(), seq![t]));
        },
        TokenType::For => {
            assert(w.subrange(0, w.len() as int) =~= w);
            assert(w[0] != "mod"@[0]);
            assert(w[0] != "div"@[0]);
            assert(keyword_map()[w] == 11u8);
            assert(lexes_to(w, start_state(), seq![t]));
        },
        TokenType::Repeat => {
            assert(w.subrange(0, w.len() as int) =~= w);
            assert(w[0] != "switch"@[0]);
            assert(keyword_map()[w] == 12u8);
            assert(lexes_to(w, start_state(), seq![t]));
        },
        TokenType::While => {
            assert(w.subrange(0, w.len() as int) =~= w);
            assert(w[0] != "until"@[0]);
            assert(w[0] != "break"@[0]);
            assert(keyword_map()[w] == 13u8);
            assert(lexes_to(w, start_state(), seq![t]));
        },
        TokenType::Do => {
            assert(w.subrange(0, w.len() as int) =~= w);
            assert(keyword_map()[w] == 14u8);
            assert(lexes_to(w, start_state(), seq![t]));
        },
        TokenType::Until => {
            assert(w.subrange(0, w.len() as int) =~= w);
            assert(w[0] != "break"@[0]);
            assert(keyword_map()[w] == 15u8);
            assert(lexes_to(w, start_state(), seq![t]));
        },
        TokenType::Switch => {
            assert(w.subrange(0, w.len() as int) =~= w);
            assert(keyword_map()[w] == 16u8);
            assert(lexes_to(w, start_state(), seq![t]));
        },
        TokenType::Case => {
            assert(w.subrange(0, w.len() as int) =~= w);
            assert(w[0] != "exit"@[0]);
            assert(w[0] != "enum"@[0]);
            assert(w[0] != "with"@[0]);
            assert(w[0] != "then"@[0]);
            assert(keyword_map()[w] == 17u8);
            assert(lexes_to(w, start_state(), seq![t]));
        },
        TokenType::DefaultCase => {
            assert(w.subrange(0, w.len() as int) =~= w);
            assert(keyword_map()[w] == 18u8);
            assert(lexes_to(w, start_state(), seq![t]));
        },
        TokenType::ModAlias => {
            assert(w.subrange(0, w.len() as int) =~= w);
            assert(w[0] != "div"@[0]);
            assert(keyword_map()[w] == 19u8);
            assert(lexes_to(w, start_state(), seq![t]));
        },
        TokenType::Div => {
            assert(w.subrange(0, w.len() as int) =~= w);
            assert(keyword_map()[w] == 20u8);
            assert(lexes_to(w, start_state(), seq![t]));
        },
        TokenType::Break => {
            assert(w.subrange(0, w.len() as int) =~= w);
            assert(keyword_map()[w] == 21u8);
            assert(lexes_to(w, start_state(), seq![t]));
        },
        TokenType::Exit => {
            assert(w.subrange(0, w.len() as int) =~= w);
            assert(w[1] != "enum"@[1]);
            assert(w[0] != "with"@[0]);
            assert(w[0] != "then"@[0]);
            assert(keyword_map()[w] == 22u8);
            assert(lexes_to(w, start_state(), seq![t]));
        },
        TokenType::Enum => {
            assert(w.subrange(0, w.len() as int) =~= w);
            assert(w[0] != "with"@[0]);
            assert(w[0] != "then"@[0]);
            assert(keyword_map()[w] == 23u8);
            assert(lexes_to(w, start_state(), seq![t]));
        },
        TokenType::With => {
            assert(w.subrange(0, w.len() as int) =~= w);
            assert(w[0] != "then"@[0]);
            assert(keyword_map()[w] == 24u8);
            assert(lexes_to(w, start_state(), seq![t]));
        },
        TokenType::Then => {
            assert(w.subrange(0, w.len() as int) =~= w);
            assert(keyword_map()[w] == 25u8);
            assert(lexes_to(w, start_state(), seq![t]));
        },
        TokenType::GlobalVar => {
            assert(w.subrange(0, w.len() as int) =~= w);
            assert(keyword_map()[w] == 26u8);
            assert(lexes_to(w, start_state(), seq![t]));
        },
        _ => {},
    }
}

/// Scanning the body of a single-quoted string from `k`, where a quote at `k`
/// does not follow a backslash of the body: every quote before the text's end
/// follows a backslash, and a quote that ends the text (where the scan stops
/// after it, short of the end and of a newline) does not.
proof fn lemma_single_quoted_escapes(s: Seq<char>, a: int, k: int, cur: int)
    requires
        0 <= a < k,
        cur <= k,
        0 <= k < s.len() && s[k] == '\'' ==> !(k - 1 > a && s[k - 1] == '\\'),
    ensures
        ({
            let (stop, end) = quoted_scan(s, k, cur, '\'', false);
            &&& forall|j: int| k <= j < end - 1 && #[trigger] s[j] == '\'' ==> j - 1 > a && s[j - 1] == '\\'
            &&& stop < s.len() ==> stop == end
            &&& stop == end && end < s.len() && s[end] != '\n' ==> k <= end - 1 && s[end - 1] == '\''
                && !(end - 2 > a && s[end - 2] == '\\')
        }),
    decreases s.len() - k,
{
    if 0 <= k < s.len() {
        if s[k] == '\n' {
        } else if s[k] == '\\' {
            if char_at_is(s, k + 1, '\'') {
                lemma_single_quoted_escapes(s, a, k + 2, k + 2);
            } else {
                lemma_single_quoted_escapes(s, a, k + 1, cur);
            }
        } else if s[k] == '\'' {
        } else {
            lemma_single_quoted_escapes(s, a, k + 1, k + 1);
        }
    }
}

/// In a single-quoted string a backslash escapes the quote and nothing else:
/// each quote inside its text follows a backslash, and the quote that closes it
/// (where the scan goes on past it, on the same line) does not.
pub proof fn lemma_single_quoted_string<'a>(s: Seq<char>, st: ScanState)
    requires
        0 <= skip_blank(s, st).pos < s.len(),
        s[skip_blank(s, st).pos] == '\'',
    ensures
        spec_next::<'a>(s, st) is Some,
        ({
            let step = spec_next::<'a>(s, st)->0;
            let a = skip_blank(s, st).pos;
            &&& step.lexeme matches Lexeme::Text(kind, a2, b) && kind is String && a2 == a && a <= b <= s.len()
            &&& forall|j: int|
                a < j < step.lexeme->Text_2 - 1 && #[trigger] s[j] == '\'' ==> j - 1 > a && s[j - 1] == '\\'
            &&& ({
                let b = step.lexeme->Text_2;
                b - 1 > a && s[b - 1] == '\'' && step.next.pos == b && b < s.len() && s[b] != '\n'
                    ==> !(b - 2 > a && s[b - 2] == '\\')
            })
            &&& step.next.pos < s.len() ==> step.next.pos == step.lexeme->Text_2 && (s[step.next.pos] == '\n' || (
                step.lexeme->Text_2 - 1 > a && s[step.lexeme->Text_2 - 1] == '\''))
        }),
{
    let a = skip_blank(s, st).pos;
    lemma_quoted_scan_bounds(s, a + 1, a, '\'', false);
    lemma_single_quoted_escapes(s, a, a + 1, a);
}

} // verus!
