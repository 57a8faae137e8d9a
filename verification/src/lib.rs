pub mod config;
pub mod error_tokens;
pub mod expressions;
pub mod keywords;
pub mod lang_config;
pub mod lex_token;
pub mod parser;
pub mod printer;
pub mod scan_spec;
pub mod scanner;
pub mod statements;

pub use config::{Config, PrintFlags};
pub use lang_config::LangConfig;

use parser::{
    alt_end, binop_level, dangling_at, dangling_program, error_fits, plain_stmt_end, plain_stmt_pieces, lemma_alt_end_after, operand, plain_at, plain_program, plain_program_pieces,
    plain_statement_pieces, single_token_statement, spaced_words, ParseError, Parser,
};
use printer::{
    all_simple, ends_with_newline_chars, is_ws_piece, ends_with_newlines, joined, lemma_joined_newlines, newlines,
    is_newline_statement, no_excess_newlines, simple_pieces, simple_run_pieces, space_text, strip_trailing_ws,
    text_chars, Printer,
};
use lex_token::{lemma_plain_tag_determines, Token};
use scan_spec::{byte_len, lemma_scan_unique, lexes_to, same_token, spec_next, start_state, MAX_SOURCE_BYTES};
use statements::StmtBox;
use vstd::prelude::*;

verus! {

/// The text that makes the formatter leave a file as it is.
pub const IGNORE_MARKER: &'static str = "// @gml_fmt ignore";

/// `needle` occurs in `hay`.
pub open spec fn contains_text(hay: Seq<char>, needle: Seq<char>) -> bool {
    exists|i: int| 0 <= i <= hay.len() - needle.len() && #[trigger] hay.subrange(i, i + needle.len()) == needle
}

/// Text that can be split into pieces that end with one that is no lone space,
/// tab or newline and then exactly `newlines_at_end` newline pieces (or into no
/// pieces at all), and where, before those last newlines, no newline piece ends
/// a second line in a row made of space and tab pieces alone. This speaks of
/// some split: a piece that holds several characters is looked at as a whole.
pub open spec fn formatted_shape(text: Seq<char>, newlines_at_end: nat) -> bool {
    exists|ps: Seq<Seq<char>>|
        text == joined(ps) && #[trigger] ends_with_newlines(ps, newlines_at_end) && (ps.len() == 0
            || no_excess_newlines(ps.subrange(0, ps.len() - newlines_at_end)))
}

/// Every token is a line or block comment.
pub open spec fn comments_only(toks: Seq<Token>) -> bool {
    forall|i: int|
        0 <= i < toks.len() ==> (#[trigger] toks[i]).token_type is Comment || toks[i].token_type is MultilineComment
}

/// Every token is a newline: the source holds nothing but whitespace.
pub open spec fn newlines_only(toks: Seq<Token>) -> bool {
    forall|i: int| 0 <= i < toks.len() ==> (#[trigger] toks[i]).token_type is Newline
}

/// What a run of comments prints: the text of each and a space.
pub open spec fn comment_texts(toks: Seq<Token>) -> Seq<Seq<char>>
    decreases toks.len(),
{
    if toks.len() == 0 {
        Seq::empty()
    } else {
        comment_texts(toks.drop_last()) + seq![toks.last().token_type.payload(), space_text()]
    }
}

/// The formatted text of a source made of comments alone: the comments, a
/// space between each two, then `newlines_at_end` newlines (nothing at all
/// where there is nothing but whitespace).
pub open spec fn formatted_comments(toks: Seq<Token>, newlines_at_end: nat) -> Seq<char> {
    let body = strip_trailing_ws(comment_texts(toks));
    if body.len() == 0 {
        Seq::empty()
    } else {
        joined(body + newlines(newlines_at_end))
    }
}

/// Two scans that agree token by token hold the same comments.
proof fn lemma_same_comments<'a>(t1: Seq<Token<'a>>, t2: Seq<Token<'a>>)
    requires
        t1.len() == t2.len(),
        forall|i: int| 0 <= i < t1.len() ==> same_token(#[trigger] t1[i], t2[i]),
    ensures
        comments_only(t1) ==> comments_only(t2),
        comment_texts(t1) == comment_texts(t2),
    decreases t1.len(),
{
    if t1.len() > 0 {
        lemma_same_comments(t1.drop_last(), t2.drop_last());
        assert(same_token(t1[t1.len() - 1], t2[t2.len() - 1]));
    }
    if comments_only(t1) {
        assert forall|i: int| 0 <= i < t2.len() implies (#[trigger] t2[i]).token_type is Comment
            || t2[i].token_type is MultilineComment by {
            assert(same_token(t1[i], t2[i]));
        }
    }
}

/// Comment statements made from comment tokens print the comments.
proof fn lemma_comment_statements<'a>(ast: Seq<StmtBox<'a>>, toks: Seq<Token<'a>>)
    requires
        comments_only(toks),
        ast.len() == toks.len(),
        forall|i: int| 0 <= i < ast.len() ==> (#[trigger] ast[i]).statement == single_token_statement(toks[i])->0,
    ensures
        all_simple(ast),
        simple_run_pieces(ast) == comment_texts(toks),
    decreases ast.len(),
{
    assert forall|i: int| 0 <= i < ast.len() implies #[trigger] simple_pieces(*ast[i]) is Some by {
        assert(ast[i].statement == single_token_statement(toks[i])->0);
        assert(toks[i].token_type is Comment || toks[i].token_type is MultilineComment);
    }
    if ast.len() > 0 {
        let n = ast.len() - 1;
        assert(comments_only(toks.drop_last()));
        assert forall|i: int| 0 <= i < ast.drop_last().len() implies (#[trigger] ast.drop_last()[i]).statement
            == single_token_statement(toks.drop_last()[i])->0 by {
            assert(ast.drop_last()[i] == ast[i]);
        }
        lemma_comment_statements(ast.drop_last(), toks.drop_last());
        assert(ast[n].statement == single_token_statement(toks[n])->0);
        assert(toks[n].token_type is Comment || toks[n].token_type is MultilineComment);
        assert(simple_pieces(*ast.last()) == Some(seq![toks.last().token_type.payload(), space_text()]));
    }
}

/// The formatted text of a source of plain statements (expressions of names,
/// numbers and strings joined by binary operators and assignments, and
/// `break`, `exit` and `return` with or without such an expression, each
/// statement ended by a semicolon): the tokens of each statement with one space
/// between each two and the semicolon right after the last, one space between
/// statements, then `newlines_at_end` newlines.
pub open spec fn formatted_plain(toks: Seq<Token>, newlines_at_end: nat) -> Seq<char> {
    let body = strip_trailing_ws(plain_program_pieces(toks, 0));
    if body.len() == 0 {
        Seq::empty()
    } else {
        joined(body + newlines(newlines_at_end))
    }
}

/// Two tokens that agree as scans do are alike for plain statements.
proof fn lemma_same_token_alike(a: Token, b: Token)
    requires
        same_token(a, b),
    ensures
        operand(a.token_type) == operand(b.token_type),
        binop_level(a.token_type) == binop_level(b.token_type),
        (a.token_type is Semicolon) == (b.token_type is Semicolon),
        (a.token_type is Break) == (b.token_type is Break),
        (a.token_type is Exit) == (b.token_type is Exit),
        (a.token_type is Return) == (b.token_type is Return),
        a.token_type.spec_name() == b.token_type.spec_name(),
{
    if a.token_type.is_plain() {
        lemma_plain_tag_determines(a.token_type, b.token_type);
    } else if b.token_type.is_plain() {
        lemma_plain_tag_determines(b.token_type, a.token_type);
    }
}

/// Two scans that agree token by token have a plain expression at the same
/// places, and it prints alike.
proof fn lemma_same_plain_at<'a>(t1: Seq<Token<'a>>, t2: Seq<Token<'a>>, q: int)
    requires
        t1.len() == t2.len(),
        forall|i: int| 0 <= i < t1.len() ==> same_token(#[trigger] t1[i], t2[i]),
    ensures
        plain_at(t1, q) == plain_at(t2, q),
        plain_at(t1, q) ==> plain_statement_pieces(t1, q) == plain_statement_pieces(t2, q),
{
    lemma_same_alt_end(t1, t2, q);
    if 0 <= q < t1.len() {
        let a = alt_end(t1, q);
        lemma_alt_end_after(t1, q);
        lemma_same_token_alike(t1[q], t2[q]);
        if a < t1.len() {
            lemma_same_token_alike(t1[a], t2[a]);
        }
        assert forall|i: int| q <= i < a && 0 <= i < t1.len() implies #[trigger] t1[i].token_type.spec_name()
            == t2[i].token_type.spec_name() by {
            lemma_same_token_alike(t1[i], t2[i]);
        }
        assert((forall|i: int| q <= i < a ==> !is_ws_piece(#[trigger] t1[i].token_type.spec_name())) == (forall|
            i: int,
        | q <= i < a ==> !is_ws_piece(#[trigger] t2[i].token_type.spec_name()))) by {
            if a <= t1.len() {
                assert forall|i: int| q <= i < a implies t1[i].token_type.spec_name() == t2[i].token_type.spec_name() by {
                    lemma_same_token_alike(t1[i], t2[i]);
                }
            }
        }
        if plain_at(t1, q) {
            lemma_same_words(t1.subrange(q, a), t2.subrange(q, a));
        }
    }
}

/// Two scans that agree token by token hold the same plain statements, which
/// print alike.
proof fn lemma_same_plain<'a>(t1: Seq<Token<'a>>, t2: Seq<Token<'a>>, p: int)
    requires
        t1.len() == t2.len(),
        forall|i: int| 0 <= i < t1.len() ==> same_token(#[trigger] t1[i], t2[i]),
        0 <= p,
    ensures
        plain_program(t1, p) ==> plain_program(t2, p),
        plain_program(t1, p) ==> plain_program_pieces(t1, p) == plain_program_pieces(t2, p),
    decreases t1.len() - p,
{
    if p < t1.len() && plain_program(t1, p) {
        lemma_alt_end_after(t1, p);
        lemma_alt_end_after(t1, p + 1);
        lemma_same_token_alike(t1[p], t2[p]);
        if p + 1 < t1.len() {
            lemma_same_token_alike(t1[p + 1], t2[p + 1]);
        }
        lemma_same_plain_at(t1, t2, p);
        lemma_same_plain_at(t1, t2, p + 1);
        lemma_same_alt_end(t1, t2, p);
        lemma_same_alt_end(t1, t2, p + 1);
        let e = plain_stmt_end(t1, p);
        assert(plain_stmt_end(t2, p) == e);
        assert(plain_stmt_pieces(t1, p) == plain_stmt_pieces(t2, p));
        lemma_same_plain(t1, t2, e);
    }
}

/// Two scans that agree token by token end alike in an expression cut short.
proof fn lemma_same_dangling<'a>(t1: Seq<Token<'a>>, t2: Seq<Token<'a>>, p: int)
    requires
        t1.len() == t2.len(),
        forall|i: int| 0 <= i < t1.len() ==> same_token(#[trigger] t1[i], t2[i]),
        0 <= p,
    ensures
        dangling_program(t1, p) ==> dangling_program(t2, p),
    decreases t1.len() - p,
{
    if p < t1.len() && dangling_program(t1, p) {
        lemma_same_alt_end(t1, t2, p);
        lemma_alt_end_after(t1, p);
        lemma_same_token_alike(t1[p], t2[p]);
        lemma_same_token_alike(t1[t1.len() - 1], t2[t2.len() - 1]);
        if dangling_at(t1, p) {
            assert(dangling_at(t2, p));
        } else {
            let a = alt_end(t1, p);
            lemma_same_plain_at(t1, t2, p);
            lemma_same_dangling(t1, t2, a + 1);
        }
    }
}

/// Two scans that agree token by token have the same runs of operands and operators.
proof fn lemma_same_alt_end<'a>(t1: Seq<Token<'a>>, t2: Seq<Token<'a>>, p: int)
    requires
        t1.len() == t2.len(),
        forall|i: int| 0 <= i < t1.len() ==> same_token(#[trigger] t1[i], t2[i]),
    ensures
        alt_end(t1, p) == alt_end(t2, p),
    decreases t1.len() - p,
{
    if 0 <= p && p + 2 < t1.len() {
        lemma_same_token_alike(t1[p + 1], t2[p + 1]);
        lemma_same_token_alike(t1[p + 2], t2[p + 2]);
        lemma_same_alt_end(t1, t2, p + 2);
    }
}

/// Tokens with the same words, each followed by a space, print alike.
proof fn lemma_same_words<'a>(t1: Seq<Token<'a>>, t2: Seq<Token<'a>>)
    requires
        t1.len() == t2.len(),
        forall|i: int| 0 <= i < t1.len() ==> #[trigger] t1[i].token_type.spec_name() == t2[i].token_type.spec_name(),
    ensures
        spaced_words(t1) == spaced_words(t2),
    decreases t1.len(),
{
    if t1.len() > 0 {
        assert forall|i: int| 0 <= i < t1.drop_last().len() implies #[trigger] t1.drop_last()[i].token_type.spec_name()
            == t2.drop_last()[i].token_type.spec_name() by {
            assert(t1.drop_last()[i] == t1[i]);
            assert(t2.drop_last()[i] == t2[i]);
        }
        lemma_same_words(t1.drop_last(), t2.drop_last());
        assert(t1.last().token_type.spec_name() == t2.last().token_type.spec_name());
    }
}

/// The parse error is explained by the tokens of `source`: it ended, a token of
/// it starts no expression, or a token of it is not a case of a switch.
pub open spec fn error_in_source<'a>(e: ParseError<'a>, source: Seq<char>) -> bool {
    exists|toks: Seq<Token<'a>>, end: int| lexes_to(source, start_state(), toks) && #[trigger] error_fits(e, toks, 0, end)
}

/// Whether the characters of `needle` occur, in a row, in `hay`.
fn str_contains(hay: &str, needle: &str) -> (r: bool)
    ensures
        r == contains_text(hay@, needle@),
{
    let h = text_chars(hay);
    let n = text_chars(needle);
    if n.len() > h.len() {
        return false;
    }
    let last = h.len() - n.len();
    let mut i: usize = 0;
    while i <= last
        invariant
            h@ == hay@,
            n@ == needle@,
            last == h.len() - n.len(),
            i <= last + 1,
            forall|k: int| 0 <= k < i ==> #[trigger] h@.subrange(k, k + n.len()) != n@,
        decreases last + 1 - i,
    {
        let mut j: usize = 0;
        while j < n.len() && h[i + j] == n[j]
            invariant
                i <= last,
                last == h.len() - n.len(),
                j <= n.len(),
                forall|m: int| 0 <= m < j ==> h@[i + m] == n@[m],
            decreases n.len() - j,
        {
            j = j + 1;
        }
        if j == n.len() {
            assert(h@.subrange(i as int, i + n.len()) =~= n@);
            return true;
        }
        assert(h@.subrange(i as int, i + n.len())[j as int] != n@[j as int]);
        i = i + 1;
    }
    proof {
        assert forall|k: int| 0 <= k <= hay@.len() - needle@.len() implies #[trigger] hay@.subrange(
            k,
            k + needle@.len(),
        ) != needle@ by {
            assert(k < i);
        }
    }
    false
}

/// Whether a file asks to be left unformatted: it holds the ignore marker.
pub fn is_ignored(contents: &str) -> (r: bool)
    ensures
        r == contains_text(contents@, IGNORE_MARKER@),
{
    str_contains(contents, IGNORE_MARKER)
}

/// Formats GML source; fails where the source cannot be parsed.
pub fn run<'a>(source: &'a str, lang_config: &LangConfig) -> (r: Result<String, ParseError<'a>>)
    requires
        byte_len(source@) <= MAX_SOURCE_BYTES,
    ensures
        r matches Ok(out) ==> formatted_shape(out@, lang_config.newlines_at_end as nat),
        r matches Ok(out) ==> out@.len() == 0 || ends_with_newline_chars(out@, lang_config.newlines_at_end as nat),
        forall|toks: Seq<Token<'a>>|
            #[trigger] lexes_to(source@, start_state(), toks) && comments_only(toks) ==> (r matches Ok(out) && out@
                == formatted_comments(toks, lang_config.newlines_at_end as nat)),
        forall|toks: Seq<Token<'a>>|
            #[trigger] lexes_to(source@, start_state(), toks) && newlines_only(toks) ==> (r matches Ok(out) && out@.len()
                == 0),
        spec_next::<'a>(source@, start_state()) is None ==> (r matches Ok(out) && out@.len() == 0),
        forall|toks: Seq<Token<'a>>|
            #[trigger] lexes_to(source@, start_state(), toks) && plain_program(toks, 0) ==> (r matches Ok(out) && out@
                == formatted_plain(toks, lang_config.newlines_at_end as nat)),
        forall|toks: Seq<Token<'a>>|
            #[trigger] lexes_to(source@, start_state(), toks) && dangling_program(toks, 0) ==> r matches Err(
                ParseError::UnexpectedEnd,
            ),
        r matches Err(e) ==> error_in_source(e, source@),
{
    let source_size = source.len();
    let parser = Parser::new(source);
    let ghost parser_tokens = parser.tokens();
    let ghost only_comments = comments_only(parser_tokens);
    let ghost only_newlines = newlines_only(parser_tokens);
    proof {
        assert forall|toks: Seq<Token<'a>>|
            #[trigger] lexes_to(source@, start_state(), toks) implies (comments_only(toks) ==> only_comments) && comment_texts(
            toks,
        ) == comment_texts(parser_tokens) && (newlines_only(toks) ==> only_newlines) && (plain_program(toks, 0)
            ==> plain_program(parser_tokens, 0) && plain_program_pieces(toks, 0) == plain_program_pieces(
            parser_tokens,
            0,
        )) && (dangling_program(toks, 0) ==> dangling_program(parser_tokens, 0)) by {
            lemma_scan_unique(source@, start_state(), toks, parser_tokens);
            lemma_same_comments(toks, parser_tokens);
            lemma_same_plain(toks, parser_tokens, 0);
            lemma_same_dangling(toks, parser_tokens, 0);
            if newlines_only(toks) {
                assert forall|i: int| 0 <= i < parser_tokens.len() implies (#[trigger] parser_tokens[i]).token_type
                    is Newline by {
                    assert(same_token(toks[i], parser_tokens[i]));
                }
            }
        }
        if only_comments {
            assert forall|i: int| 0 <= i < parser_tokens.len() implies #[trigger] single_token_statement(
                parser_tokens[i],
            ) is Some by {
                assert(parser_tokens[i].token_type is Comment || parser_tokens[i].token_type is MultilineComment);
            }
        }
    }
    match parser.build_ast() {
        Ok(ast) => {
            let fresh = Printer::new(source_size / 2, lang_config);
            assert(fresh.pieces() =~= Seq::<Seq<char>>::empty());
            assert(fresh.wf());
            proof {
                if only_comments {
                    assert forall|i: int| 0 <= i < ast@.len() implies (#[trigger] ast@[i]).statement
                        == single_token_statement(parser_tokens[i])->0 by {
                        assert(ast@[0 + i] == ast@[i]);
                        assert(parser_tokens[0 + i] == parser_tokens[i]);
                    }
                    lemma_comment_statements(ast@, parser_tokens);
                    assert(fresh.pieces() + simple_run_pieces(ast@) =~= comment_texts(parser_tokens));
                }
                if plain_program(parser_tokens, 0) {
                    assert(ast@.subrange(0, ast@.len() as int) =~= ast@);
                    assert(fresh.pieces() + simple_run_pieces(ast@) =~= plain_program_pieces(parser_tokens, 0));
                }
            }
            let printer = fresh.autoformat(ast.as_slice());
            let ghost ps = printer.pieces();
            let out = printer.get_output(source_size);
            assert(ends_with_newlines(ps, lang_config.newlines_at_end as nat));
            proof {
                let n = lang_config.newlines_at_end as nat;
                if ps.len() > 0 {
                    let a = ps.subrange(0, ps.len() - n);
                    assert(ps =~= a + newlines(n));
                    lemma_joined_newlines(a, n);
                }
            }
            Ok(out)
        },
        Err(e) => {
            assert(lexes_to(source@, start_state(), parser_tokens));
            Err(e)
        },
    }
}

/// Formats a piece of GML source, with the given configuration or the default one.
pub fn run_snippet<'a>(source: &'a str, lang_config: Option<LangConfig>) -> (r: Result<String, ParseError<'a>>)
    requires
        byte_len(source@) <= MAX_SOURCE_BYTES,
    ensures
        r matches Ok(out) ==> formatted_shape(
            out@,
            match lang_config {
                Some(c) => c.newlines_at_end as nat,
                None => 1,
            },
        ),
        r matches Ok(out) ==> out@.len() == 0 || ends_with_newline_chars(
            out@,
            match lang_config {
                Some(c) => c.newlines_at_end as nat,
                None => 1,
            },
        ),
        forall|toks: Seq<Token<'a>>|
            #[trigger] lexes_to(source@, start_state(), toks) && comments_only(toks) ==> (r matches Ok(out) && out@
                == formatted_comments(
                toks,
                match lang_config {
                    Some(c) => c.newlines_at_end as nat,
                    None => 1,
                },
            )),
        forall|toks: Seq<Token<'a>>|
            #[trigger] lexes_to(source@, start_state(), toks) && newlines_only(toks) ==> (r matches Ok(out) && out@.len()
                == 0),
        spec_next::<'a>(source@, start_state()) is None ==> (r matches Ok(out) && out@.len() == 0),
        forall|toks: Seq<Token<'a>>|
            #[trigger] lexes_to(source@, start_state(), toks) && plain_program(toks, 0) ==> (r matches Ok(out) && out@
                == formatted_plain(
                toks,
                match lang_config {
                    Some(c) => c.newlines_at_end as nat,
                    None => 1,
                },
            )),
        forall|toks: Seq<Token<'a>>|
            #[trigger] lexes_to(source@, start_state(), toks) && dangling_program(toks, 0) ==> r matches Err(
                ParseError::UnexpectedEnd,
            ),
        r matches Err(e) ==> error_in_source(e, source@),
{
    let config = match lang_config {
        Some(c) => c,
        None => LangConfig::default(),
    };
    run(source, &config)
}

} // verus!
