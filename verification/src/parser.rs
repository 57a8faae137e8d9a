use crate::expressions::{CommentsAndNewlines, Expr, ExprBox, ExprBoxInterior};
use crate::lex_token::{Token, TokenType};
use crate::printer::{all_simple, expr_printable, flat_pieces, simple_run_pieces, is_newline_statement, is_ws_piece, simple_pieces, space_text, SEMICOLON, lines_printable, run_printable, stmt_printable, token_printable, var_decl_printable};
use crate::scan_spec::{byte_len, lemma_tokens_scanned_ok, lexes_to, scanned_ok, start_state, MAX_SOURCE_BYTES};
use crate::scanner::Scanner;
use crate::statements::{
    Case, CaseType, DelimitedLine, DelimitedLines, Statement, StatementWrapper, StmtBox, VariableDecl,
};
use vstd::prelude::*;

verus! {

/// Why the source could not be parsed.
#[derive(Debug)]
pub enum ParseError<'a> {
    /// A token that starts no expression, where only an expression can stand.
    UnexpectedToken(Token<'a>),
    /// A token in a switch that is neither `case`, `default` nor the closing brace.
    UnknownTokenInSwitch(Token<'a>),
    /// The source ends where an expression must stand.
    UnexpectedEnd,
}

/// Newlines and comments, and the other tokens that the parser keeps beside
/// the code rather than in it.
pub open spec fn is_trivia(tt: TokenType) -> bool {
    ||| tt is Newline
    ||| tt is Comment
    ||| tt is MultilineComment
    ||| tt is RegionBegin
    ||| tt is RegionEnd
    ||| tt is Then
}

/// The end of the run of trivia tokens that starts at `k`.
pub open spec fn trivia_end(toks: Seq<Token>, k: int) -> int
    decreases toks.len() - k,
{
    if 0 <= k < toks.len() && is_trivia(toks[k].token_type) {
        trivia_end(toks, k + 1)
    } else {
        k
    }
}

/// The tokens of a run of comments and newlines, as a sequence.
pub open spec fn comments_view<'a>(c: CommentsAndNewlines<'a>) -> Option<Seq<Token<'a>>> {
    match c {
        Some(v) => Some(v@),
        None => None,
    }
}

/// The error came from the tokens parsed from `start` on, the parser standing at `end`:
/// the source ended, the token just taken starts no expression, or the next
/// token is not a case of a switch.
pub open spec fn error_fits<'a>(e: ParseError<'a>, toks: Seq<Token<'a>>, start: int, end: int) -> bool {
    match e {
        ParseError::UnexpectedEnd => end == toks.len(),
        ParseError::UnexpectedToken(t) => start < end <= toks.len() && toks[end - 1] == t,
        ParseError::UnknownTokenInSwitch(t) => {
            &&& start <= end < toks.len()
            &&& toks[end] == t
            &&& !(t.token_type is Case || t.token_type is DefaultCase || t.token_type is RightBrace)
        },
    }
}

/// The run of trivia tokens at `k`: none when there is none.
pub open spec fn trivia_run<'a>(toks: Seq<Token<'a>>, k: int) -> Option<Seq<Token<'a>>> {
    let e = trivia_end(toks, k);
    if e == k {
        None
    } else {
        Some(toks.subrange(k, e))
    }
}

/// The kind of statement that a leading token begins: a keyword its own
/// statement, a comment, region or macro token the statement of that token,
/// anything else an expression statement.
pub open spec fn begins(tt: TokenType, s: Statement) -> bool {
    match tt {
        TokenType::Comment(_) => s is Comment,
        TokenType::MultilineComment(_) => s is MultilineComment,
        TokenType::RegionBegin(_) => s is RegionBegin,
        TokenType::RegionEnd(_) => s is RegionEnd,
        TokenType::Macro(_) => s is Macro,
        TokenType::Define => s is Define,
        TokenType::Var | TokenType::GlobalVar => s is VariableDeclList,
        TokenType::Enum => s is EnumDeclaration,
        TokenType::If => s is If,
        TokenType::Return => s is Return,
        TokenType::Break => s is Break,
        TokenType::Exit => s is Exit,
        TokenType::Do => s is DoUntil,
        TokenType::While | TokenType::With | TokenType::Repeat => s is WhileWithRepeat,
        TokenType::Switch => s is Switch,
        TokenType::For => s is For,
        TokenType::LeftBrace => s is Block,
        _ => s is ExpresssionStatement,
    }
}

/// The statement made of one comment, region or macro token alone.
pub open spec fn single_token_statement<'a>(t: Token<'a>) -> Option<Statement<'a>> {
    match t.token_type {
        TokenType::Comment(_) => Some(Statement::Comment { comment: t }),
        TokenType::MultilineComment(_) => Some(Statement::MultilineComment { multiline_comment: t }),
        TokenType::RegionBegin(_) => Some(Statement::RegionBegin(t)),
        TokenType::RegionEnd(_) => Some(Statement::RegionEnd(t)),
        TokenType::Macro(_) => Some(Statement::Macro(t)),
        _ => None,
    }
}

/// `e` is the expression of a number, string or identifier token `t`, with
/// the comments that follow it.
pub open spec fn literal_of<'a>(e: Expr<'a>, t: Token<'a>, comments: Option<Seq<Token<'a>>>) -> bool {
    match t.token_type {
        TokenType::Number(_) | TokenType::String(_) => e matches Expr::Literal { literal_token, comments: c }
            && literal_token == t && comments_view(c) == comments,
        TokenType::NumberStartDot(_) => e matches Expr::NumberStartDot { literal_token, comments: c }
            && literal_token == t && comments_view(c) == comments,
        TokenType::NumberEndDot(_) => e matches Expr::NumberEndDot { literal_token, comments: c }
            && literal_token == t && comments_view(c) == comments,
        TokenType::Identifier(_) => e matches Expr::Identifier { name, comments: c } && name == t
            && comments_view(c) == comments,
        _ => false,
    }
}

/// The token begins no expression of its own in `primary`: where one is
/// allowed it stands for itself, else it is an error.
pub open spec fn stands_for_itself(tt: TokenType) -> bool {
    !(tt is Number || tt is String || tt is NumberStartDot || tt is NumberEndDot || tt is Identifier
        || tt is LeftParen || tt is LeftBracket || tt is Newline || tt is Comment || tt is MultilineComment)
}

/// A declared variable: a name or an assignment, after a `var` or `globalvar`
/// word (and the comments after it) when the source repeats one.
pub open spec fn declared_line<'a>(v: VariableDecl<'a>) -> bool {
    &&& v.say_var matches Some(w) ==> (w.token_type is Var || w.token_type is GlobalVar)
    &&& (v.say_var is Some <==> v.say_var_comments is Some)
    &&& (v.var_expr.expr is Identifier || v.var_expr.expr is Assign)
}

/// The token at `p` is a newline, and the next one is a newline too or there is none.
pub open spec fn lone_newline(toks: Seq<Token>, p: int) -> bool {
    &&& 0 <= p < toks.len()
    &&& toks[p].token_type is Newline
    &&& (p + 1 == toks.len() || toks[p + 1].token_type is Newline)
}

/// The tokens of an expression with no newlines or comments anywhere in it, in
/// the order of the source, for the kinds that keep all their tokens: names and
/// literals, unary operators, binary operators and assignments; none for any other.
pub open spec fn flat_tokens<'a>(e: ExprBox<'a>) -> Option<Seq<Token<'a>>>
    decreases e,
{
    if e.trailing_comments is Some {
        None
    } else {
        match e.expr {
            Expr::Identifier { name, comments } => if comments is None {
                Some(seq![name])
            } else {
                None
            },
            Expr::Literal { literal_token, comments } => if comments is None {
                Some(seq![literal_token])
            } else {
                None
            },
            Expr::NumberStartDot { literal_token, comments } => if comments is None {
                Some(seq![literal_token])
            } else {
                None
            },
            Expr::NumberEndDot { literal_token, comments } => if comments is None {
                Some(seq![literal_token])
            } else {
                None
            },
            Expr::UnidentifiedAsLiteral { literal_token } => Some(seq![literal_token]),
            Expr::Unary { operator, comments_and_newlines_between, right } => {
                if comments_and_newlines_between is None && flat_tokens(right) is Some {
                    Some(seq![operator] + flat_tokens(right)->0)
                } else {
                    None
                }
            },
            Expr::Binary { left, operator, comments_and_newlines_between_op_and_r, right } => {
                if comments_and_newlines_between_op_and_r is None && flat_tokens(left) is Some && flat_tokens(
                    right,
                ) is Some {
                    Some(flat_tokens(left)->0 + seq![operator] + flat_tokens(right)->0)
                } else {
                    None
                }
            },
            Expr::Assign { left, operator, comments_and_newlines_between_op_and_r, right } => {
                if comments_and_newlines_between_op_and_r is None && flat_tokens(left) is Some && flat_tokens(
                    right,
                ) is Some {
                    Some(flat_tokens(left)->0 + seq![operator] + flat_tokens(right)->0)
                } else {
                    None
                }
            },
            _ => None,
        }
    }
}

/// The tokens from `a` to `c` are those before `b`, the one at `b`, and those after it.
proof fn lemma_join_tokens<'a>(toks: Seq<Token<'a>>, a: int, b: int, c: int)
    requires
        0 <= a <= b < c <= toks.len(),
    ensures
        toks.subrange(a, b) + seq![toks[b]] + toks.subrange(b + 1, c) == toks.subrange(a, c),
        seq![toks[b]] + toks.subrange(b + 1, c) == toks.subrange(b, c),
{
    assert(toks.subrange(a, b) + seq![toks[b]] + toks.subrange(b + 1, c) =~= toks.subrange(a, c));
    assert(seq![toks[b]] + toks.subrange(b + 1, c) =~= toks.subrange(b, c));
}

/// `bounds` gives, for each declared line, the range of tokens that its
/// expression was parsed from: the ranges stand in order within `lo..hi`, an
/// expression made of names, literals and operators holds exactly the tokens of
/// its range, and a comma token follows each range but the last.
pub open spec fn lines_from_tokens<'a>(
    lines: Seq<DelimitedLine<'a, VariableDecl<'a>>>,
    toks: Seq<Token<'a>>,
    lo: int,
    hi: int,
    bounds: Seq<(int, int)>,
) -> bool {
    &&& bounds.len() == lines.len()
    &&& forall|i: int| 0 <= i < bounds.len() ==> lo <= (#[trigger] bounds[i]).0 < bounds[i].1 <= hi
    &&& forall|i: int|
        0 <= i < bounds.len() ==> (flat_tokens((#[trigger] lines[i]).expr.var_expr) matches Some(ts) ==> ts
            == toks.subrange(bounds[i].0, bounds[i].1))
    &&& forall|i: int|
        0 <= i < bounds.len() - 1 ==> (#[trigger] bounds[i]).1 < bounds[i + 1].0 && toks[bounds[i].1].token_type
            is Comma
}

/// Where the case labels of a switch stand: the condition holds the tokens
/// from `c0` up to `e` (exactly, when it is made of names, literals and
/// operators); after it come an opening brace when there is one and the
/// comments after it; from there on each case or default label stands where the
/// previous case ended, in order and of its own kind, and the cases end at `q`,
/// at a closing brace or the end of the tokens, no later than `fin`.
pub open spec fn switch_layout<'a>(
    toks: Seq<Token<'a>>,
    c0: int,
    e: int,
    labels: Seq<int>,
    q: int,
    fin: int,
    condition: ExprBox<'a>,
    comments_after_lbrace: CommentsAndNewlines<'a>,
    cases: Seq<Case<'a>>,
) -> bool {
    let b = if e < toks.len() && toks[e].token_type is LeftBrace { e + 1 } else { e };
    &&& c0 < e <= q <= fin <= toks.len()
    &&& flat_tokens(condition) matches Some(ts) ==> ts == toks.subrange(c0, e)
    &&& comments_view(comments_after_lbrace) == trivia_run(toks, b)
    &&& labels.len() == cases.len()
    &&& (labels.len() == 0 ==> q == trivia_end(toks, b))
    &&& (labels.len() > 0 ==> labels[0] == trivia_end(toks, b) && labels.last() < q)
    &&& forall|i: int|
        0 <= i < labels.len() ==> {
            &&& (#[trigger] labels[i]) < q
            &&& (toks[labels[i]].token_type is Case || toks[labels[i]].token_type is DefaultCase)
            &&& (toks[labels[i]].token_type is Case <==> cases[i].control_word is Case)
        }
    &&& forall|i: int| 0 < i < labels.len() ==> labels[i - 1] < #[trigger] labels[i]
    &&& (q == toks.len() || toks[q].token_type is RightBrace)
}

/// A name, a number or a string.
pub open spec fn operand(tt: TokenType) -> bool {
    tt is Identifier || tt is Number || tt is String
}

/// How tightly a binary or assignment operator binds: assignments loosest,
/// then `||`, `&&`, `^^`, equality, comparison, bit operators, shifts,
/// addition and multiplication; 0 for a token that is none of these.
pub open spec fn binop_level(tt: TokenType) -> int {
    match tt {
        TokenType::Equal | TokenType::PlusEquals | TokenType::MinusEquals | TokenType::StarEquals
        | TokenType::SlashEquals | TokenType::BitXorEquals | TokenType::BitOrEquals | TokenType::BitAndEquals
        | TokenType::ModEquals => 1,
        TokenType::LogicalOr | TokenType::OrAlias => 3,
        TokenType::LogicalAnd | TokenType::AndAlias => 4,
        TokenType::LogicalXor | TokenType::XorAlias => 5,
        TokenType::EqualEqual | TokenType::BangEqual => 6,
        TokenType::Greater | TokenType::GreaterEqual | TokenType::Less | TokenType::LessEqual => 7,
        TokenType::BitAnd | TokenType::BitOr | TokenType::BitXor => 8,
        TokenType::BitLeft | TokenType::BitRight => 9,
        TokenType::Minus | TokenType::Plus => 10,
        TokenType::Slash | TokenType::Star | TokenType::Mod | TokenType::ModAlias | TokenType::Div => 11,
        _ => 0,
    }
}

/// From an operand at `p`, operands and binary operators alternate up to the
/// returned index, where the run stops.
pub open spec fn alt_end(toks: Seq<Token>, p: int) -> int
    decreases toks.len() - p,
{
    if 0 <= p && p + 2 < toks.len() && binop_level(toks[p + 1].token_type) > 0 && operand(toks[p + 2].token_type) {
        alt_end(toks, p + 2)
    } else {
        p + 1
    }
}

/// At `p` stands a plain expression: operands (whose words are no whitespace)
/// and binary operators alternating, then a semicolon.
pub open spec fn plain_at(toks: Seq<Token>, p: int) -> bool {
    &&& 0 <= p < toks.len()
    &&& operand(toks[p].token_type)
    &&& alt_end(toks, p) < toks.len()
    &&& toks[alt_end(toks, p)].token_type is Semicolon
    &&& forall|i: int| p <= i < alt_end(toks, p) ==> !is_ws_piece(#[trigger] toks[i].token_type.spec_name())
}

/// The words of tokens, each followed by a space.
pub open spec fn spaced_words(ts: Seq<Token>) -> Seq<Seq<char>>
    decreases ts.len(),
{
    if ts.len() == 0 {
        Seq::empty()
    } else {
        spaced_words(ts.drop_last()) + seq![ts.last().token_type.spec_name(), space_text()]
    }
}

proof fn lemma_spaced_words_append(a: Seq<Token>, b: Seq<Token>)
    ensures
        spaced_words(a + b) == spaced_words(a) + spaced_words(b),
    decreases b.len(),
{
    if b.len() == 0 {
        assert(a + b =~= a);
    } else {
        lemma_spaced_words_append(a, b.drop_last());
        assert((a + b).drop_last() =~= a + b.drop_last());
    }
}

/// Parsing a plain expression at `p` down to operators that bind at least as
/// tightly as `m`: a name, a literal, a binary operation or an assignment that
/// prints its tokens, each followed by a space, and stops at `q`, at the end of
/// the run or before a looser operator (after which the run goes on).
pub open spec fn parsed_plain<'a>(toks: Seq<Token<'a>>, p: int, q: int, m: int, e: ExprBox<'a>) -> bool {
    &&& 0 <= p < q <= alt_end(toks, p)
    &&& (q == alt_end(toks, p) || binop_level(toks[q].token_type) < m)
    &&& q < alt_end(toks, p) ==> {
        &&& binop_level(toks[q].token_type) > 0
        &&& q + 1 < toks.len()
        &&& operand(toks[q + 1].token_type)
        &&& alt_end(toks, q + 1) == alt_end(toks, p)
    }
    &&& !(e.expr is UnidentifiedAsLiteral)
    &&& flat_pieces(e) == Some(spaced_words(toks.subrange(p, q)))
}

/// A run of operands and operators ends after its first operand.
pub proof fn lemma_alt_end_after(toks: Seq<Token>, p: int)
    ensures
        alt_end(toks, p) >= p + 1,
        0 <= p < toks.len() ==> alt_end(toks, p) <= toks.len(),
    decreases toks.len() - p,
{
    if 0 <= p && p + 2 < toks.len() && binop_level(toks[p + 1].token_type) > 0 && operand(toks[p + 2].token_type) {
        lemma_alt_end_after(toks, p + 2);
    }
}

/// The first operand of a plain expression: no comments follow it, and it
/// prints as its word and a space.
proof fn lemma_plain_start(toks: Seq<Token>, p: int)
    requires
        plain_at(toks, p),
    ensures
        trivia_end(toks, p + 1) == p + 1,
        trivia_run(toks, p + 1) is None,
        spaced_words(toks.subrange(p, p + 1)) == seq![toks[p].token_type.spec_name(), space_text()],
        p + 1 <= alt_end(toks, p),
        p + 1 < alt_end(toks, p) ==> {
            &&& binop_level(toks[p + 1].token_type) > 0
            &&& p + 2 < toks.len()
            &&& operand(toks[p + 2].token_type)
            &&& alt_end(toks, p + 2) == alt_end(toks, p)
        },
{
    lemma_alt_end_after(toks, p);
    lemma_alt_end_after(toks, p + 2);
    assert(!is_trivia(toks[p + 1].token_type));
    assert(toks.subrange(p, p + 1).drop_last() =~= Seq::<Token>::empty());
    assert(spaced_words(Seq::<Token>::empty()) =~= Seq::empty());
}

/// Inside the run of a plain expression, the operand after an operator
/// starts a plain expression too.
proof fn lemma_plain_inner(toks: Seq<Token>, p0: int, q: int)
    requires
        plain_at(toks, p0),
        p0 <= q,
        q + 1 < toks.len(),
        operand(toks[q + 1].token_type),
        alt_end(toks, q + 1) == alt_end(toks, p0),
    ensures
        plain_at(toks, q + 1),
{
    assert forall|i: int| q + 1 <= i < alt_end(toks, q + 1) implies !is_ws_piece(
        #[trigger] toks[i].token_type.spec_name(),
    ) by {
        assert(p0 <= i < alt_end(toks, p0));
    }
}

/// The words of a range are those of its part before an operator, of the
/// operator, and of its part after.
proof fn lemma_plain_join(toks: Seq<Token>, p: int, q: int, q2: int)
    requires
        0 <= p < q < q2 <= toks.len(),
    ensures
        spaced_words(toks.subrange(p, q)) + seq![toks[q].token_type.spec_name(), space_text()] + spaced_words(
            toks.subrange(q + 1, q2),
        ) == spaced_words(toks.subrange(p, q2)),
{
    let one = toks.subrange(q, q + 1);
    assert(one.drop_last() =~= Seq::<Token>::empty());
    assert(one.last() == toks[q]);
    assert(spaced_words(Seq::<Token>::empty()) =~= Seq::empty());
    assert(spaced_words(one) == seq![toks[q].token_type.spec_name(), space_text()]);
    lemma_spaced_words_append(toks.subrange(p, q), one);
    lemma_spaced_words_append(toks.subrange(p, q) + one, toks.subrange(q + 1, q2));
    assert(toks.subrange(p, q) + one + toks.subrange(q + 1, q2) =~= toks.subrange(p, q2));
}

/// Joining a plain left side, the operator after it and a plain right side
/// gives a plain binary operation or assignment down to the right side's bound.
proof fn lemma_plain_combine<'a>(
    toks: Seq<Token<'a>>,
    p: int,
    q: int,
    q2: int,
    m1: int,
    m2: int,
    left: ExprBox<'a>,
    right: ExprBox<'a>,
    e: ExprBox<'a>,
)
    requires
        parsed_plain(toks, p, q, m1, left),
        q < alt_end(toks, p),
        parsed_plain(toks, q + 1, q2, m2, right),
        e.trailing_comments is None,
        (e.expr == Expr::Binary { left, operator: toks[q], comments_and_newlines_between_op_and_r: None, right })
            || (e.expr == Expr::Assign {
            left,
            operator: toks[q],
            comments_and_newlines_between_op_and_r: None,
            right,
        }),
    ensures
        parsed_plain(toks, p, q2, m2, e),
{
    lemma_alt_end_after(toks, q + 1);
    lemma_plain_join(toks, p, q, q2);
}

/// At `p` stands a plain expression cut short: operands and binary
/// operators alternate up to the last token, which is an operator.
pub open spec fn dangling_at(toks: Seq<Token>, p: int) -> bool {
    &&& 0 <= p < toks.len()
    &&& operand(toks[p].token_type)
    &&& alt_end(toks, p) == toks.len() - 1
    &&& binop_level(toks[toks.len() - 1].token_type) > 0
}

/// Parsing from `p` down to operators that bind at least as tightly as `m`
/// stopped at `q`, before an operator that binds more loosely (after which the
/// run goes on, or the tokens end).
pub open spec fn cut_short(toks: Seq<Token>, p: int, q: int, m: int) -> bool {
    &&& 0 <= p < q <= alt_end(toks, p)
    &&& 0 < binop_level(toks[q].token_type) < m
    &&& q < alt_end(toks, p) ==> {
        &&& q + 1 < toks.len()
        &&& operand(toks[q + 1].token_type)
        &&& alt_end(toks, q + 1) == alt_end(toks, p)
    }
}

/// The first operand of a cut-short expression: no comments follow it, and an
/// operator does.
proof fn lemma_dangling_start(toks: Seq<Token>, p: int)
    requires
        dangling_at(toks, p),
    ensures
        trivia_end(toks, p + 1) == p + 1,
        trivia_run(toks, p + 1) is None,
        cut_short(toks, p, p + 1, 12),
{
    lemma_alt_end_after(toks, p);
    lemma_alt_end_after(toks, p + 2);
    assert(!is_trivia(toks[p + 1].token_type));
}

/// From `p` on, the tokens are plain expression statements and then one
/// expression cut short after an operator.
pub open spec fn dangling_program(toks: Seq<Token>, p: int) -> bool
    decreases toks.len() - p,
{
    if 0 <= p < toks.len() {
        proof {
            lemma_alt_end_after(toks, p);
        }
        dangling_at(toks, p) || (plain_at(toks, p) && dangling_program(toks, alt_end(toks, p) + 1))
    } else {
        false
    }
}

/// What the plain expression statement at `p` prints: the words of its
/// tokens with a space after each but the last, then a semicolon and a space.
pub open spec fn plain_statement_pieces(toks: Seq<Token>, p: int) -> Seq<Seq<char>> {
    spaced_words(toks.subrange(p, alt_end(toks, p))).drop_last() + seq![SEMICOLON@, space_text()]
}

/// The words of a plain expression end with the word of its last token and a
/// space, and that word is no whitespace.
proof fn lemma_plain_last_word(toks: Seq<Token>, p: int)
    requires
        plain_at(toks, p),
    ensures
        ({
            let sw = spaced_words(toks.subrange(p, alt_end(toks, p)));
            sw.len() >= 2 && !is_ws_piece(sw[sw.len() - 2])
        }),
{
    let a = alt_end(toks, p);
    lemma_alt_end_after(toks, p);
    let sub = toks.subrange(p, a);
    assert(sub.last() == toks[a - 1]);
    assert(spaced_words(sub) == spaced_words(sub.drop_last()) + seq![sub.last().token_type.spec_name(), space_text()]);
    assert(!is_ws_piece(toks[a - 1].token_type.spec_name()));
}

/// Where the plain statement at `p` ends, or -1 where none stands there: an
/// expression statement of a plain expression, `break`, `exit` or `return`
/// alone, or `return` with a plain expression, each ended by a semicolon.
pub open spec fn plain_stmt_end(toks: Seq<Token>, p: int) -> int {
    if plain_at(toks, p) {
        alt_end(toks, p) + 1
    } else if 0 <= p && p + 1 < toks.len() && (toks[p].token_type is Break || toks[p].token_type is Exit
        || toks[p].token_type is Return) && toks[p + 1].token_type is Semicolon {
        p + 2
    } else if 0 <= p && toks[p].token_type is Return && plain_at(toks, p + 1) {
        alt_end(toks, p + 1) + 1
    } else {
        -1
    }
}

/// What the plain statement at `p` prints.
pub open spec fn plain_stmt_pieces(toks: Seq<Token>, p: int) -> Seq<Seq<char>> {
    if plain_at(toks, p) {
        plain_statement_pieces(toks, p)
    } else if 0 <= p && p + 1 < toks.len() && toks[p + 1].token_type is Semicolon && toks[p].token_type is Break {
        seq!["break"@, SEMICOLON@, space_text()]
    } else if 0 <= p && p + 1 < toks.len() && toks[p + 1].token_type is Semicolon && toks[p].token_type is Exit {
        seq!["exit"@, SEMICOLON@, space_text()]
    } else if 0 <= p && p + 1 < toks.len() && toks[p + 1].token_type is Semicolon && toks[p].token_type is Return {
        seq!["return"@, SEMICOLON@, space_text()]
    } else {
        seq!["return"@, space_text()] + plain_statement_pieces(toks, p + 1)
    }
}

/// From `p` on, the tokens are plain statements, one after another.
pub open spec fn plain_program(toks: Seq<Token>, p: int) -> bool
    decreases toks.len() - p,
{
    if 0 <= p < toks.len() {
        proof {
            lemma_alt_end_after(toks, p);
            lemma_alt_end_after(toks, p + 1);
        }
        p < plain_stmt_end(toks, p) && plain_program(toks, plain_stmt_end(toks, p))
    } else {
        p == toks.len()
    }
}

/// What the plain statements from `p` on print, one after another.
pub open spec fn plain_program_pieces(toks: Seq<Token>, p: int) -> Seq<Seq<char>>
    decreases toks.len() - p,
{
    if 0 <= p < toks.len() && p < plain_stmt_end(toks, p) <= toks.len() {
        plain_stmt_pieces(toks, p) + plain_program_pieces(toks, plain_stmt_end(toks, p))
    } else {
        Seq::empty()
    }
}

/// At `p` stands a name, number or string, and right after it `++` or `--`.
pub open spec fn operand_then_step(toks: Seq<Token>, p: int) -> bool {
    &&& 0 <= p
    &&& p + 1 < toks.len()
    &&& (toks[p].token_type is Identifier || toks[p].token_type is Number || toks[p].token_type is String)
    &&& (toks[p + 1].token_type is Incrementer || toks[p + 1].token_type is Decrementer)
}

/// Builds the statements of a GML source from its tokens.
pub struct Parser<'a> {
    pub ast: Vec<StmtBox<'a>>,
    allow_unidentified: bool,
    tokens: Vec<Token<'a>>,
    pos: usize,
    can_pair: bool,
    leftover_stmts: Vec<StmtBox<'a>>,
    check_leftovers: bool,
}

impl<'a> Parser<'a> {
    /// The tokens being parsed.
    pub closed spec fn tokens(&self) -> Seq<Token<'a>> {
        self.tokens@
    }

    /// Index of the next token to parse.
    pub closed spec fn position(&self) -> int {
        self.pos as int
    }

    pub closed spec fn wf(&self) -> bool {
        &&& self.pos <= self.tokens.len()
        &&& forall|i: int| 0 <= i < self.tokens@.len() ==> scanned_ok(#[trigger] self.tokens@[i])
        &&& forall|i: int| 0 <= i < self.leftover_stmts@.len() ==> stmt_printable(*#[trigger] self.leftover_stmts@[i])
    }

    /// The statements parsed so far.
    pub closed spec fn parsed(&self) -> Seq<StmtBox<'a>> {
        self.ast@
    }

    /// Tokens left to parse.
    pub closed spec fn rest(&self) -> int {
        self.tokens.len() - self.pos
    }

    /// `self` is `old` after parsing on: same tokens, not gone back.
    pub closed spec fn advanced(&self, old: &Parser<'a>) -> bool {
        &&& self.wf()
        &&& self.tokens@ == old.tokens@
        &&& old.pos <= self.pos
        &&& self.ast@ == old.ast@
    }

    /// `self` is `old` with only the position changed.
    pub closed spec fn moved_from(&self, old: &Parser<'a>) -> bool {
        *self == (Parser { pos: self.pos, ..*old })
    }

    /// What parsing an expression at a lone newline gives: a newline expression
    /// with nothing after it, one token on, with pairing off.
    pub closed spec fn newline_parsed(&self, fin: Parser<'a>, r: Result<ExprBox<'a>, ParseError<'a>>) -> bool {
        lone_newline(self.tokens@, self.pos as int) ==> {
            &&& r matches Ok(e) && e.expr is Newline && e.trailing_comments is None
            &&& fin.pos == self.pos + 1
            &&& !fin.can_pair
            &&& fin.check_leftovers == self.check_leftovers
        }
    }

    /// Parsing a plain expression from `self`, with pairing on, gives `r` and
    /// stands at `fin`: the expression down to operators that bind at least as
    /// tightly as `m`, with pairing still on and the leftovers flag kept.
    spec fn plain_parsed(&self, fin: Parser<'a>, r: Result<ExprBox<'a>, ParseError<'a>>, m: int) -> bool {
        plain_at(self.tokens@, self.pos as int) && self.can_pair ==> {
            &&& r matches Ok(e) && parsed_plain(self.tokens@, self.pos as int, fin.pos as int, m, e)
            &&& fin.can_pair
            &&& fin.check_leftovers == self.check_leftovers
        }
    }

    /// Parsing an expression cut short from `self`, with pairing on, fails for
    /// want of a token, or gives an expression that stops at `fin` before an
    /// operator binding more loosely than `m`, with pairing still on.
    spec fn dangling_parsed(&self, fin: Parser<'a>, r: Result<ExprBox<'a>, ParseError<'a>>, m: int) -> bool {
        dangling_at(self.tokens@, self.pos as int) && self.can_pair ==> {
            ||| r matches Err(ParseError::UnexpectedEnd)
            ||| (r matches Ok(e) && !(e.expr is UnidentifiedAsLiteral) && cut_short(
                self.tokens@,
                self.pos as int,
                fin.pos as int,
                m,
            ) && fin.can_pair)
        }
    }

    /// Whether statements wait to be placed after the declaration being parsed.
    pub closed spec fn has_leftovers(&self) -> bool {
        self.check_leftovers
    }

    pub closed spec fn next_is(&self, tt: TokenType) -> bool {
        self.pos < self.tokens.len() && self.tokens@[self.pos as int].token_type.tag() == tt.tag()
    }

    pub fn new(input: &'a str) -> (r: Parser<'a>)
        requires
            byte_len(input@) <= MAX_SOURCE_BYTES,
        ensures
            r.wf(),
            r.position() == 0,
            lexes_to(input@, start_state(), r.tokens()),
            r.parsed().len() == 0,
            r.rest() == r.tokens().len(),
            !r.has_leftovers(),
    {
        let scanner = Scanner::new(input);
        let tokens = scanner.collect();
        proof {
            lemma_tokens_scanned_ok(input@, start_state(), tokens@);
        }
        Parser {
            ast: Vec::new(),
            tokens,
            pos: 0,
            allow_unidentified: false,
            can_pair: true,
            leftover_stmts: Vec::new(),
            check_leftovers: false,
        }
    }

    /// Parses all the tokens into statements, after those already in `ast`.
    #[verifier::loop_isolation(false)]
    pub fn build_ast(self) -> (r: Result<Vec<StmtBox<'a>>, ParseError<'a>>)
        requires
            self.wf(),
        ensures
            self.rest() == 0 ==> (r matches Ok(ast) && ast@ == self.parsed()),
            r matches Err(e) ==> exists|end: int| #[trigger] error_fits(e, self.tokens(), self.position(), end),
            (forall|i: int| 0 <= i < self.parsed().len() ==> stmt_printable(*#[trigger] self.parsed()[i])) ==> (
            r matches Ok(ast) ==> forall|i: int| 0 <= i < ast@.len() ==> stmt_printable(*#[trigger] ast@[i])),
            r matches Ok(ast) ==> {
                &&& self.parsed().len() <= ast@.len()
                &&& ast@.subrange(0, self.parsed().len() as int) == self.parsed()
                &&& (self.rest() > 0 ==> self.parsed().len() < ast@.len())
                &&& (self.rest() > 0 ==> begins(
                    self.tokens()[self.position()].token_type,
                    ast@[self.parsed().len() as int].statement,
                ))
                &&& (self.rest() > 0 ==> (single_token_statement(self.tokens()[self.position()]) matches Some(s)
                    ==> ast@[self.parsed().len() as int].statement == s))
            },
            !self.has_leftovers() && (forall|i: int|
                self.position() <= i < self.tokens().len() ==> (#[trigger] self.tokens()[i]).token_type is Newline)
                ==> {
                &&& r matches Ok(ast)
                &&& ast@.len() == self.parsed().len() + self.rest()
                &&& forall|i: int| self.parsed().len() <= i < ast@.len() ==> is_newline_statement(*#[trigger] ast@[i])
            },
            !self.has_leftovers() && (forall|i: int|
                self.position() <= i < self.tokens().len() ==> #[trigger] single_token_statement(self.tokens()[i])
                    is Some) ==> {
                &&& r matches Ok(ast)
                &&& ast@.len() == self.parsed().len() + self.rest()
                &&& forall|i: int|
                    0 <= i < self.rest() ==> (#[trigger] ast@[self.parsed().len() + i]).statement
                        == single_token_statement(self.tokens()[self.position() + i])->0
            },
            !self.has_leftovers() && plain_program(self.tokens(), self.position()) ==> {
                &&& r matches Ok(ast)
                &&& all_simple(ast@.subrange(self.parsed().len() as int, ast@.len() as int))
                &&& simple_run_pieces(ast@.subrange(self.parsed().len() as int, ast@.len() as int))
                    == plain_program_pieces(self.tokens(), self.position())
            },
            !self.has_leftovers() && dangling_program(self.tokens(), self.position()) ==> r matches Err(
                ParseError::UnexpectedEnd,
            ),
    {
        let ghost first = self.ast@;
        let ghost rest = self.rest();
        let ghost toks0 = self.tokens();
        let ghost pos0 = self.position();
        let ghost pre_ok = forall|i: int| 0 <= i < self.parsed().len() ==> stmt_printable(*#[trigger] self.parsed()[i]);
        let ghost blanks = !self.has_leftovers() && (forall|i: int|
            self.position() <= i < self.tokens().len() ==> (#[trigger] self.tokens()[i]).token_type is Newline);
        let ghost singles = !self.has_leftovers() && (forall|i: int|
            self.position() <= i < self.tokens().len() ==> #[trigger] single_token_statement(self.tokens()[i]) is Some);
        assert(self.parsed() == first);
        assert forall|i: int| pre_ok && 0 <= i < first.len() implies stmt_printable(*#[trigger] first[i]) by {
            assert(first[i] == self.parsed()[i]);
        }
        let ghost plain0 = !self.has_leftovers() && plain_program(self.tokens(), self.position());
        let ghost cut0 = !self.has_leftovers() && dangling_program(self.tokens(), self.position());
        let mut parser = self;
        proof {
            assert(parser.ast@.subrange(first.len() as int, parser.ast@.len() as int) =~= Seq::<StmtBox<'a>>::empty());
            assert(Seq::<Seq<char>>::empty() + plain_program_pieces(toks0, pos0) =~= plain_program_pieces(toks0, pos0));
        }
        loop
            invariant
                cut0 ==> !parser.check_leftovers && dangling_program(toks0, parser.pos as int),
                plain0 ==> {
                    &&& !parser.check_leftovers
                    &&& plain_program(toks0, parser.pos as int)
                    &&& all_simple(parser.ast@.subrange(first.len() as int, parser.ast@.len() as int))
                    &&& simple_run_pieces(parser.ast@.subrange(first.len() as int, parser.ast@.len() as int))
                        + plain_program_pieces(toks0, parser.pos as int) == plain_program_pieces(toks0, pos0)
                },
                parser.wf(),
                parser.tokens@ == toks0,
                pos0 <= parser.pos,
                first.len() <= parser.ast@.len(),
                parser.ast@.subrange(0, first.len() as int) == first,
                parser.rest() <= rest,
                parser.rest() < rest ==> first.len() < parser.ast@.len(),
                parser.rest() < rest ==> begins(toks0[pos0].token_type, parser.ast@[first.len() as int].statement),
                parser.rest() < rest ==> (single_token_statement(toks0[pos0]) matches Some(s)
                    ==> parser.ast@[first.len() as int].statement == s),
                parser.rest() == rest ==> parser.pos == pos0 && parser.ast@ == first,
                blanks ==> {
                    &&& !parser.check_leftovers
                    &&& forall|i: int| pos0 <= i < toks0.len() ==> (#[trigger] toks0[i]).token_type is Newline
                    &&& parser.ast@.len() == first.len() + (parser.pos - pos0)
                    &&& forall|i: int|
                        first.len() <= i < parser.ast@.len() ==> is_newline_statement(*#[trigger] parser.ast@[i])
                },
                singles ==> {
                    &&& !parser.check_leftovers
                    &&& forall|i: int| pos0 <= i < toks0.len() ==> #[trigger] single_token_statement(toks0[i]) is Some
                    &&& parser.ast@.len() == first.len() + (parser.pos - pos0)
                    &&& forall|i: int|
                        0 <= i < parser.pos - pos0 ==> (#[trigger] parser.ast@[first.len() + i]).statement
                            == single_token_statement(toks0[pos0 + i])->0
                },
                rest == 0 ==> parser.ast@ == first,
                pre_ok ==> forall|i: int| 0 <= i < first.len() ==> stmt_printable(*#[trigger] first[i]),
                (forall|i: int| 0 <= i < first.len() ==> stmt_printable(*#[trigger] first[i])) ==> forall|i: int|
                    0 <= i < parser.ast@.len() ==> stmt_printable(*#[trigger] parser.ast@[i]),
            decreases parser.rest(),
        {
            if parser.peek().is_none() {
                break;
            }
            parser.can_pair = true;
            proof {
                if blanks {
                    assert(toks0[parser.pos as int].token_type is Newline);
                    if parser.pos + 1 < toks0.len() {
                        assert(toks0[parser.pos + 1].token_type is Newline);
                    }
                    assert(lone_newline(toks0, parser.pos as int));
                }
            }
            let ghost p_before = parser.pos as int;
            proof {
                if plain0 {
                    lemma_alt_end_after(toks0, p_before);
                    lemma_alt_end_after(toks0, p_before + 1);
                    assert(p_before < plain_stmt_end(toks0, p_before));
                }
                if cut0 {
                    lemma_alt_end_after(toks0, p_before);
                    assert(dangling_at(toks0, p_before) || plain_at(toks0, p_before));
                }
            }
            let ret = match parser.statement() {
                Ok(st) => st,
                Err(e) => {
                    assert(error_fits(e, toks0, pos0, parser.pos as int));
                    return Err(e);
                },
            };
            let ghost before = parser.ast@;
            parser.ast.push(ret);
            proof {
                assert(parser.ast@ =~= before.push(ret));
                if blanks {
                    assert forall|i: int| first.len() <= i < parser.ast@.len() implies is_newline_statement(
                        *#[trigger] parser.ast@[i],
                    ) by {
                        if i < parser.ast@.len() - 1 {
                            assert(parser.ast@[i] == before[i]);
                        }
                    }
                }
                if singles {
                    assert forall|i: int| 0 <= i < parser.pos - pos0 implies (#[trigger] parser.ast@[first.len()
                        + i]).statement == single_token_statement(toks0[pos0 + i])->0 by {
                        if i < parser.pos - pos0 - 1 {
                            assert(parser.ast@[first.len() + i] == before[first.len() + i]);
                        }
                    }
                }
                assert(parser.ast@[first.len() as int] == before.push(ret)[first.len() as int]);
                if plain0 {
                    let sub_old = before.subrange(first.len() as int, before.len() as int);
                    let sub_new = parser.ast@.subrange(first.len() as int, parser.ast@.len() as int);
                    assert(sub_new =~= sub_old.push(ret));
                    assert(sub_new.drop_last() =~= sub_old);
                    assert forall|i: int| 0 <= i < sub_new.len() implies #[trigger] simple_pieces(*sub_new[i]) is Some by {
                        if i < sub_old.len() {
                            assert(sub_new[i] == sub_old[i]);
                        }
                    }
                    let a = plain_stmt_pieces(toks0, p_before);
                    assert(plain_program_pieces(toks0, p_before) == a + plain_program_pieces(toks0, parser.pos as int));
                    assert(simple_run_pieces(sub_new) == simple_run_pieces(sub_old) + a);
                    assert(simple_run_pieces(sub_old) + a + plain_program_pieces(toks0, parser.pos as int)
                        =~= simple_run_pieces(sub_old) + (a + plain_program_pieces(toks0, parser.pos as int)));
                }
            }
            let ghost at_first = parser.ast@[first.len() as int];
            if parser.check_leftovers {
                let ghost mid = parser.ast@;
                let ghost left = parser.leftover_stmts@;
                parser.ast.append(&mut parser.leftover_stmts);
                parser.check_leftovers = false;
                proof {
                    assert(parser.ast@ =~= mid + left);
                    assert(parser.ast@[first.len() as int] == mid[first.len() as int]);
                    assert forall|i: int| 0 <= i < parser.ast@.len() && (forall|j: int| 0 <= j < mid.len() ==> stmt_printable(*#[trigger] mid[j])) implies stmt_printable(*#[trigger] parser.ast@[i]) by {
                        if i < mid.len() {
                            assert(parser.ast@[i] == mid[i]);
                        } else {
                            assert(parser.ast@[i] == left[i - mid.len()]);
                        }
                    }
                }
            }
            assert(parser.ast@.subrange(0, first.len() as int) =~= first);
            assert(parser.ast@[first.len() as int] == at_first);
        }
        proof {
            if plain0 {
                let sub = parser.ast@.subrange(first.len() as int, parser.ast@.len() as int);
                assert(plain_program_pieces(toks0, parser.pos as int) =~= Seq::<Seq<char>>::empty());
                assert(simple_run_pieces(sub) + Seq::<Seq<char>>::empty() =~= simple_run_pieces(sub));
            }
        }
        Ok(parser.ast)
    }

    fn peek(&self) -> (r: Option<Token<'a>>)
        requires
            self.wf(),
        ensures
            r == (if self.pos < self.tokens.len() { Some(self.tokens@[self.pos as int]) } else { None::<Token<'a>> }),
    {
        if self.pos < self.tokens.len() {
            Some(self.tokens[self.pos])
        } else {
            None
        }
    }

    /// Takes the next token.
    fn consume_next(&mut self) -> (r: Token<'a>)
        requires
            old(self).wf(),
            old(self).pos < old(self).tokens.len(),
        ensures
            scanned_ok(r),
            final(self).advanced(old(self)),
            final(self).moved_from(old(self)),
            final(self).pos == old(self).pos + 1,
            r == old(self).tokens@[old(self).pos as int],
    {
        let t = self.tokens[self.pos];
        assert(scanned_ok(self.tokens@[self.pos as int]));
        self.pos = self.pos + 1;
        t
    }

    /// Whether the next token is a `token_type` (never while pairing is off).
    fn check_next(&mut self, token_type: TokenType<'a>) -> (r: bool)
        requires
            old(self).wf(),
        ensures
            *final(self) == *old(self),
            r == (old(self).can_pair && old(self).next_is(token_type)),
    {
        if self.can_pair == false {
            return false;
        }
        if let Some(t) = self.peek() {
            return t.token_type.same_kind(&token_type);
        }
        false
    }

    /// Whether the next token is a `token_type1` or a `token_type2` (never while pairing is off).
    fn check_next_either(&mut self, token_type1: TokenType<'a>, token_type2: TokenType<'a>) -> (r: bool)
        requires
            old(self).wf(),
        ensures
            *final(self) == *old(self),
            r == (old(self).can_pair && (old(self).next_is(token_type1) || old(self).next_is(token_type2))),
    {
        if self.can_pair == false {
            return false;
        }
        if let Some(t) = self.peek() {
            return t.token_type.same_kind(&token_type1) || t.token_type.same_kind(&token_type2);
        }
        false
    }

    /// Takes the next token when it is a `token_type` (never while pairing is off).
    fn check_next_consume(&mut self, token_type: TokenType<'a>) -> (r: bool)
        requires
            old(self).wf(),
        ensures
            final(self).advanced(old(self)),
            r == (old(self).can_pair && old(self).next_is(token_type)),
            final(self).pos == old(self).pos + if r { 1int } else { 0int },
            final(self).moved_from(old(self)),
    {
        if self.can_pair == false {
            return false;
        }
        if self.check_next(token_type) {
            self.consume_next();
            true
        } else {
            false
        }
    }

    /// Takes the run of newlines and comments (and regions and `then`) that comes next.
    fn get_newlines_and_comments(&mut self) -> (r: CommentsAndNewlines<'a>)
        requires
            old(self).wf(),
        ensures
            run_printable(r),
            final(self).advanced(old(self)),
            final(self).pos == trivia_end(old(self).tokens@, old(self).pos as int),
            comments_view(r) == trivia_run(old(self).tokens@, old(self).pos as int),
            final(self).moved_from(old(self)),
    {
        let ghost toks = self.tokens@;
        let ghost start = self.pos as int;
        let mut ret: CommentsAndNewlines<'a> = None;
        loop
            invariant
                self.wf(),
                self.tokens@ == toks,
                start <= self.pos,
                toks == old(self).tokens@,
                start == old(self).pos,
                trivia_end(toks, self.pos as int) == trivia_end(toks, start),
                ret is None <==> self.pos == start,
                ret matches Some(v) ==> v@ == toks.subrange(start, self.pos as int),
                run_printable(ret),
                self.moved_from(old(self)),
            ensures
                self.pos == trivia_end(toks, start),
            decreases self.tokens.len() - self.pos,
        {
            match self.peek() {
                Some(token) => {
                    let trivia = match token.token_type {
                        TokenType::Newline(_)
                        | TokenType::Comment(_)
                        | TokenType::MultilineComment(_)
                        | TokenType::RegionBegin(_)
                        | TokenType::RegionEnd(_)
                        | TokenType::Then => true,
                        _ => false,
                    };
                    if !trivia {
                        break;
                    }
                    let token = self.consume_next();
                    match ret {
                        Some(mut vec) => {
                            vec.push(token);
                            ret = Some(vec);
                        },
                        None => {
                            ret = Some(vec![token]);
                        },
                    }
                    proof {
                        assert(toks.subrange(start, self.pos as int) =~= toks.subrange(start, self.pos - 1).push(token));
                    }
                },
                None => {
                    break;
                },
            }
        }
        ret
    }

    fn statement(&mut self) -> (r: Result<StmtBox<'a>, ParseError<'a>>)
        requires
            old(self).wf(),
        ensures
            r matches Err(e) ==> error_fits(e, old(self).tokens@, old(self).pos as int, final(self).pos as int),
            r matches Ok(st) ==> stmt_printable(*st),
            final(self).advanced(old(self)),
            r is Ok ==> old(self).pos < final(self).pos,
            old(self).pos < old(self).tokens.len() ==> {
                let t = old(self).tokens@[old(self).pos as int];
                &&& r matches Ok(st) ==> begins(t.token_type, st.statement)
                &&& single_token_statement(t) matches Some(s) ==> (r matches Ok(st) && st.statement == s
                    && !st.has_semicolon && final(self).pos == old(self).pos + 1
                    && final(self).check_leftovers == old(self).check_leftovers)
                &&& (t.token_type is Var || t.token_type is GlobalVar) ==> (r matches Ok(st) ==> (
                st.statement matches Statement::VariableDeclList { starting_var_type, .. } && starting_var_type == t))
                &&& (t.token_type is While || t.token_type is With || t.token_type is Repeat) ==> (r matches Ok(st) ==> (
                st.statement matches Statement::WhileWithRepeat { token, .. } && token == t))
            },
            lone_newline(old(self).tokens@, old(self).pos as int) ==> {
                &&& r matches Ok(st) && is_newline_statement(*st)
                &&& final(self).pos == old(self).pos + 1
                &&& final(self).check_leftovers == old(self).check_leftovers
            },
            r matches Ok(st) ==> (st.statement matches Statement::ExpresssionStatement { expression } ==> (flat_tokens(
                expression,
            ) matches Some(ts) ==> {
                let end = if st.has_semicolon { final(self).pos - 1 } else { final(self).pos as int };
                &&& ts == old(self).tokens@.subrange(old(self).pos as int, end)
                &&& st.has_semicolon ==> old(self).tokens@[end].token_type is Semicolon
            })),
            old(self).pos < plain_stmt_end(old(self).tokens@, old(self).pos as int) && old(self).can_pair ==> {
                &&& r matches Ok(st) && simple_pieces(*st) == Some(plain_stmt_pieces(old(self).tokens@, old(self).pos as int))
                &&& final(self).pos == plain_stmt_end(old(self).tokens@, old(self).pos as int)
                &&& final(self).check_leftovers == old(self).check_leftovers
            },
            dangling_at(old(self).tokens@, old(self).pos as int) && old(self).can_pair ==> r matches Err(ParseError::UnexpectedEnd),
        decreases old(self).rest(), 20nat,
    {
        if let Some(token) = self.peek() {
            match token.token_type {
                TokenType::Comment(_) => {
                    let comment = self.consume_next();
                    return Ok(StatementWrapper::new(Statement::Comment { comment }, false));
                },
                TokenType::MultilineComment(_) => {
                    let multiline_comment = self.consume_next();
                    return Ok(StatementWrapper::new(Statement::MultilineComment { multiline_comment }, false));
                },
                TokenType::RegionBegin(_) => {
                    let token = self.consume_next();
                    return Ok(StatementWrapper::new(Statement::RegionBegin(token), false));
                },
                TokenType::RegionEnd(_) => {
                    let token = self.consume_next();
                    return Ok(StatementWrapper::new(Statement::RegionEnd(token), false));
                },
                TokenType::Macro(_) => {
                    let token = self.consume_next();
                    return Ok(StatementWrapper::new(Statement::Macro(token), false));
                },
                TokenType::Define => {
                    self.consume_next();
                    return self.define_statement();
                },
                TokenType::Var | TokenType::GlobalVar => {
                    return self.series_var_declaration();
                },
                TokenType::Enum => {
                    self.consume_next();
                    return self.enum_declaration();
                },
                TokenType::If => {
                    self.consume_next();
                    return self.if_statement();
                },
                TokenType::Return => {
                    self.consume_next();
                    proof {
                        if plain_at(old(self).tokens@, old(self).pos + 1) {
                            lemma_plain_last_word(old(self).tokens@, old(self).pos + 1);
                        }
                    }
                    return self.return_statement();
                },
                TokenType::Break => {
                    self.consume_next();
                    return self.break_statement();
                },
                TokenType::Exit => {
                    self.consume_next();
                    return self.exit_statment();
                },
                TokenType::Do => {
                    self.consume_next();
                    return self.do_until_statement();
                },
                TokenType::While | TokenType::With | TokenType::Repeat => {
                    let token = self.consume_next();
                    return self.while_with_repeat(token);
                },
                TokenType::Switch => {
                    self.consume_next();
                    return self.switch_statement();
                },
                TokenType::For => {
                    self.consume_next();
                    return self.for_statement();
                },
                TokenType::LeftBrace => {
                    self.consume_next();
                    return self.block();
                },
                _ => return self.expression_statement(),
            }
        };
        self.expression_statement()
    }

    fn define_statement(&mut self) -> (r: Result<StmtBox<'a>, ParseError<'a>>)
        requires
            old(self).wf(),
        ensures
            r matches Err(e) ==> error_fits(e, old(self).tokens@, old(self).pos as int, final(self).pos as int),
            r matches Ok(st) ==> stmt_printable(*st),
            final(self).advanced(old(self)),
            r matches Ok(st) ==> st.statement is Define,
        decreases old(self).rest(), 21nat,
    {
        let comments_after_control_word = self.get_newlines_and_comments();
        let script_name = self.expression()?;
        let mut body: Vec<StmtBox<'a>> = vec![];
        loop
            invariant
                self.advanced(old(self)),
                forall|i: int| 0 <= i < body@.len() ==> stmt_printable(*#[trigger] body@[i]),
            decreases self.rest(),
        {
            match self.peek() {
                Some(token) => {
                    if let TokenType::Define = token.token_type {
                        break;
                    }
                    body.push(self.statement()?);
                },
                None => {
                    break;
                },
            }
        }
        Ok(StatementWrapper::new(Statement::Define { comments_after_control_word, script_name, body }, false))
    }

    fn series_var_declaration(&mut self) -> (r: Result<StmtBox<'a>, ParseError<'a>>)
        requires
            old(self).wf(),
            old(self).pos < old(self).tokens.len(),
            !(old(self).tokens@[old(self).pos as int].token_type is Newline),
        ensures
            r matches Err(e) ==> error_fits(e, old(self).tokens@, old(self).pos as int, final(self).pos as int),
            r matches Ok(st) ==> stmt_printable(*st),
            final(self).advanced(old(self)),
            r is Ok ==> old(self).pos < final(self).pos,
            r matches Ok(st) ==> (st.statement matches Statement::VariableDeclList { starting_var_type, .. }
                && starting_var_type == old(self).tokens@[old(self).pos as int]),
        decreases old(self).rest(), 19nat,
    {
        let starting_var_type = self.consume_next();
        let comments_after_control_word = self.get_newlines_and_comments();
        let var_decl = self.var_declaration()?;
        let has_semicolon = self.check_next_consume(TokenType::Semicolon);
        Ok(StatementWrapper::new(
            Statement::VariableDeclList { starting_var_type, var_decl, comments_after_control_word },
            has_semicolon,
        ))
    }

    #[verifier::rlimit(40)]
    fn var_declaration(&mut self) -> (r: Result<DelimitedLines<'a, VariableDecl<'a>>, ParseError<'a>>)
        requires
            old(self).wf(),
        ensures
            r matches Err(e) ==> error_fits(e, old(self).tokens@, old(self).pos as int, final(self).pos as int),
            r matches Ok(d) ==> forall|i: int| 0 <= i < d.lines@.len() ==> var_decl_printable(#[trigger] d.lines@[i].expr) && run_printable(d.lines@[i].trailing_comment),
            final(self).advanced(old(self)),
            r matches Ok(d) ==> forall|i: int| 0 <= i < d.lines@.len() ==> declared_line(#[trigger] d.lines@[i].expr),
            r matches Ok(d) && d.has_end_delimiter ==> (final(self).pos == final(self).tokens.len() || (final(self).can_pair
                && final(self).next_is(TokenType::Semicolon)) || final(self).has_leftovers()),
            r matches Ok(d) ==> exists|bounds: Seq<(int, int)>|
                #[trigger] lines_from_tokens(d.lines@, old(self).tokens@, old(self).pos as int, final(self).pos as int, bounds)
                    && (d.lines@.len() > 0 && !final(self).has_leftovers() ==> (d.has_end_delimiter <==> (
                bounds.last().1 < old(self).tokens.len() && old(self).tokens@[bounds.last().1].token_type is Comma && (
                final(self).pos == final(self).tokens.len() || final(self).next_is(TokenType::Semicolon)))) && (
                d.lines@.len() > 0 && !final(self).has_leftovers() ==> if bounds.last().1 < old(self).tokens.len()
                    && old(self).tokens@[bounds.last().1].token_type is Comma {
                    &&& final(self).pos == trivia_end(old(self).tokens@, bounds.last().1 + 1)
                    &&& final(self).pos < old(self).tokens.len() ==> !(old(self).tokens@[final(self).pos as int].token_type is Identifier
                        || old(self).tokens@[final(self).pos as int].token_type is Var
                        || old(self).tokens@[final(self).pos as int].token_type is GlobalVar)
                } else {
                    final(self).pos == trivia_end(old(self).tokens@, bounds.last().1)
                })),
            old(self).can_pair && old(self).pos < old(self).tokens.len() && old(self).tokens@[old(self).pos as int].token_type is Identifier ==> (r matches Ok(d) ==> d.lines@.len() >= 1
                || final(self).has_leftovers()),
        decreases old(self).rest(), 18nat,
    {
        let mut arguments: Vec<DelimitedLine<'a, VariableDecl<'a>>> = Vec::new();
        let mut end_delimiter = false;
        let ghost toks = old(self).tokens@;
        let ghost id_start = old(self).can_pair && old(self).pos < old(self).tokens.len()
            && old(self).tokens@[old(self).pos as int].token_type is Identifier;
        let ghost mut bounds: Seq<(int, int)> = Seq::empty();
        let ghost mut stopped = false;
        let ghost mut done = false;
        loop
            invariant_except_break
                !stopped,
                !done,
            invariant
                toks == old(self).tokens@,
                lines_from_tokens(arguments@, toks, old(self).pos as int, self.pos as int, bounds),
                end_delimiter && arguments@.len() > 0 && !self.check_leftovers ==> toks[bounds.last().1].token_type
                    is Comma,
                old(self).can_pair && old(self).pos < old(self).tokens.len() && old(self).tokens@[old(self).pos as int].token_type is Identifier ==> (arguments@.len() >= 1
                    || self.check_leftovers || (self.pos == old(self).pos && self.can_pair == old(self).can_pair)),
                self.advanced(old(self)),
                forall|i: int|
                    0 <= i < arguments@.len() ==> var_decl_printable(#[trigger] arguments@[i].expr) && run_printable(
                        arguments@[i].trailing_comment,
                    ) && declared_line(arguments@[i].expr),
                end_delimiter ==> (self.pos == self.tokens.len() || (self.can_pair && self.next_is(TokenType::Semicolon))
                    || self.check_leftovers),
                !stopped && arguments@.len() > 0 ==> toks[bounds.last().1].token_type is Comma && bounds.last().1
                    < self.pos,
                !stopped && arguments@.len() > 0 && !self.check_leftovers ==> self.pos == trivia_end(
                    toks,
                    bounds.last().1 + 1,
                ),
                done ==> (id_start ==> arguments@.len() >= 1 || self.check_leftovers),
                id_start == (old(self).can_pair && old(self).pos < old(self).tokens.len()
                    && old(self).tokens@[old(self).pos as int].token_type is Identifier),
                arguments@.len() > 0 ==> self.can_pair,
            ensures
                done,
                arguments@.len() > 0 && !self.check_leftovers ==> (end_delimiter <==> (bounds.last().1 < toks.len()
                    && toks[bounds.last().1].token_type is Comma && (self.pos == self.tokens.len() || self.next_is(
                    TokenType::Semicolon,
                )))),
                arguments@.len() > 0 && !self.check_leftovers ==> if bounds.last().1 < toks.len()
                    && toks[bounds.last().1].token_type is Comma {
                    &&& self.pos == trivia_end(toks, bounds.last().1 + 1)
                    &&& self.pos < toks.len() ==> !(toks[self.pos as int].token_type is Identifier
                        || toks[self.pos as int].token_type is Var || toks[self.pos as int].token_type is GlobalVar)
                } else {
                    self.pos == trivia_end(toks, bounds.last().1)
                },
            decreases self.rest(),
        {
            if self.check_next(TokenType::Semicolon) {
                proof {
                    if id_start && arguments@.len() == 0 && !self.check_leftovers {
                        assert(self.pos == old(self).pos);
                        assert(toks[self.pos as int].token_type is Identifier);
                        assert(false);
                    }
                    done = true;
                }
                end_delimiter = true;
                break;
            }
            let has_var = self.check_next_either(TokenType::Var, TokenType::GlobalVar);
            let mut say_var = None;
            let mut say_var_comments = None;
            if has_var {
                say_var = Some(self.consume_next());
                say_var_comments = Some(self.get_newlines_and_comments());
            }
            // After a `,` there is a variable, or the declaration list has ended.
            if has_var == false {
                if let Some(next) = self.peek() {
                    if let TokenType::Identifier(_) = next.token_type {
                    } else {
                        proof {
                            if id_start && arguments@.len() == 0 && !self.check_leftovers {
                                assert(self.pos == old(self).pos);
                                assert(toks[self.pos as int].token_type is Identifier);
                                assert(false);
                            }
                            done = true;
                        }
                        end_delimiter = false;
                        break;
                    }
                } else {
                    proof {
                        if id_start && arguments@.len() == 0 && !self.check_leftovers {
                            assert(self.pos == old(self).pos);
                            assert(toks[self.pos as int].token_type is Identifier);
                            assert(false);
                        }
                        done = true;
                    }
                    end_delimiter = true;
                    break;
                }
            }
            let ghost start = self.pos as int;
            let var_expr = self.expression()?;
            let ghost end = self.pos as int;
            let is_variable = match var_expr.expr {
                Expr::Identifier { .. } | Expr::Assign { .. } => true,
                _ => false,
            };
            if !is_variable {
                // Not a variable: the expression becomes a statement of its
                // own, after the declaration.
                let has_semicolon = self.check_next_consume(TokenType::Semicolon);
                self.check_leftovers = true;
                self.leftover_stmts.push(
                    StatementWrapper::new(Statement::ExpresssionStatement { expression: var_expr }, has_semicolon),
                );
                end_delimiter = true;
                proof {
                    done = true;
                }
                break;
            }
            let var_decl = VariableDecl { say_var, say_var_comments, var_expr };
            let do_break = self.check_next_consume(TokenType::Comma) == false;
            let trailing_comment = self.get_newlines_and_comments();
            let ghost before = arguments@;
            arguments.push(DelimitedLine { expr: var_decl, trailing_comment });
            proof {
                let nb = bounds.push((start, end));
                assert(arguments@ == before.push(arguments@.last()));
                assert forall|i: int| 0 <= i < nb.len() implies (flat_tokens((#[trigger] arguments@[i]).expr.var_expr)
                    matches Some(ts) ==> ts == toks.subrange(nb[i].0, nb[i].1)) by {
                    if i < before.len() {
                        assert(arguments@[i] == before[i]);
                        assert(nb[i] == bounds[i]);
                    }
                }
                assert forall|i: int| 0 <= i < nb.len() - 1 implies (#[trigger] nb[i]).1 < nb[i + 1].0
                    && toks[nb[i].1].token_type is Comma by {
                    assert(nb[i] == bounds[i]);
                    if i + 1 < bounds.len() {
                        assert(nb[i + 1] == bounds[i + 1]);
                    }
                }
                bounds = nb;
            }
            end_delimiter = false;
            if do_break {
                proof {
                    stopped = true;
                    done = true;
                }
                break;
            }
        }
        let d = DelimitedLines { lines: arguments, has_end_delimiter: end_delimiter };
        assert forall|i: int| 0 <= i < d.lines@.len() implies declared_line(#[trigger] d.lines@[i].expr) by {
            assert(var_decl_printable(d.lines@[i].expr));
        }
        assert(lines_from_tokens(d.lines@, old(self).tokens@, old(self).pos as int, self.pos as int, bounds));
        Ok(d)
    }

    fn block(&mut self) -> (r: Result<StmtBox<'a>, ParseError<'a>>)
        requires
            old(self).wf(),
        ensures
            r matches Err(e) ==> error_fits(e, old(self).tokens@, old(self).pos as int, final(self).pos as int),
            r matches Ok(st) ==> stmt_printable(*st),
            final(self).advanced(old(self)),
            r matches Ok(st) ==> st.statement is Block,
        decreases old(self).rest(), 21nat,
    {
        let comments_after_lbrace = self.get_newlines_and_comments();
        let mut statements: Vec<StmtBox<'a>> = Vec::new();
        loop
            invariant
                self.advanced(old(self)),
                forall|i: int| 0 <= i < statements@.len() ==> stmt_printable(*#[trigger] statements@[i]),
            decreases self.rest(),
        {
            if self.peek().is_none() {
                break;
            }
            if self.check_next_consume(TokenType::RightBrace) {
                break;
            } else {
                statements.push(self.statement()?);
            }
        }
        let has_semicolon = self.check_next_consume(TokenType::Semicolon);
        Ok(StatementWrapper::new(Statement::Block { statements, comments_after_lbrace }, has_semicolon))
    }

    fn if_statement(&mut self) -> (r: Result<StmtBox<'a>, ParseError<'a>>)
        requires
            old(self).wf(),
        ensures
            r matches Err(e) ==> error_fits(e, old(self).tokens@, old(self).pos as int, final(self).pos as int),
            r matches Ok(st) ==> stmt_printable(*st),
            final(self).advanced(old(self)),
            r matches Ok(st) ==> st.statement is If,
        decreases old(self).rest(), 21nat,
    {
        let comments_after_control_word = self.get_newlines_and_comments();
        let condition = self.expression()?;
        let then_branch = self.statement()?;
        let comments_between = self.get_newlines_and_comments();
        let else_branch = if self.check_next_consume(TokenType::Else) {
            Some(self.statement()?)
        } else {
            None
        };
        let has_semicolon = self.check_next_consume(TokenType::Semicolon);
        Ok(StatementWrapper::new(
            Statement::If { comments_after_control_word, condition, then_branch, comments_between, else_branch },
            has_semicolon,
        ))
    }

    fn while_with_repeat(&mut self, token: Token<'a>) -> (r: Result<StmtBox<'a>, ParseError<'a>>)
        requires
            old(self).wf(),
            token_printable(token),
        ensures
            r matches Err(e) ==> error_fits(e, old(self).tokens@, old(self).pos as int, final(self).pos as int),
            r matches Ok(st) ==> stmt_printable(*st),
            final(self).advanced(old(self)),
            r matches Ok(st) ==> (st.statement matches Statement::WhileWithRepeat { token: tk, .. } && tk == token),
        decreases old(self).rest(), 21nat,
    {
        let comments_after_control_word = self.get_newlines_and_comments();
        let condition = self.expression()?;
        let body = self.statement()?;
        let has_semicolon = self.check_next_consume(TokenType::Semicolon);
        Ok(StatementWrapper::new(
            Statement::WhileWithRepeat { token, condition, body, comments_after_control_word },
            has_semicolon,
        ))
    }

    fn do_until_statement(&mut self) -> (r: Result<StmtBox<'a>, ParseError<'a>>)
        requires
            old(self).wf(),
        ensures
            r matches Err(e) ==> error_fits(e, old(self).tokens@, old(self).pos as int, final(self).pos as int),
            r matches Ok(st) ==> stmt_printable(*st),
            final(self).advanced(old(self)),
            r matches Ok(st) ==> st.statement is DoUntil,
        decreases old(self).rest(), 21nat,
    {
        let comments_after_control_word = self.get_newlines_and_comments();
        let body = self.statement()?;
        let comments_between = self.get_newlines_and_comments();
        self.check_next_consume(TokenType::Until);
        let condition = self.expression()?;
        let has_semicolon = self.check_next_consume(TokenType::Semicolon);
        Ok(StatementWrapper::new(
            Statement::DoUntil { comments_after_control_word, comments_between, condition, body },
            has_semicolon,
        ))
    }

    #[verifier::rlimit(60)]
    fn switch_statement(&mut self) -> (r: Result<StmtBox<'a>, ParseError<'a>>)
        requires
            old(self).wf(),
        ensures
            r matches Err(e) ==> error_fits(e, old(self).tokens@, old(self).pos as int, final(self).pos as int),
            r matches Ok(st) ==> stmt_printable(*st),
            final(self).advanced(old(self)),
            r matches Ok(st) ==> st.statement is Switch,
            r matches Ok(st) ==> (st.statement matches Statement::Switch {
                comments_after_control_word,
                condition,
                comments_after_lbrace,
                cases,
            } && comments_view(comments_after_control_word) == trivia_run(old(self).tokens@, old(self).pos as int)
                && exists|e: int, labels: Seq<int>, q: int|
                #[trigger] switch_layout(
                    old(self).tokens@,
                    trivia_end(old(self).tokens@, old(self).pos as int),
                    e,
                    labels,
                    q,
                    final(self).pos as int,
                    condition,
                    comments_after_lbrace,
                    cases@,
                )),
        decreases old(self).rest(), 21nat,
    {
        let ghost toks = old(self).tokens@;
        let comments_after_control_word = self.get_newlines_and_comments();
        let ghost c0 = self.pos as int;
        let condition = self.expression()?;
        let ghost e = self.pos as int;
        self.check_next_consume(TokenType::LeftBrace);
        let ghost b = self.pos as int;
        let comments_after_lbrace = self.get_newlines_and_comments();
        let ghost p0 = self.pos as int;
        let mut cases: Vec<Case<'a>> = vec![];
        let ghost mut labels: Seq<int> = Seq::empty();
        proof {
            assert(b == if e < toks.len() && toks[e].token_type is LeftBrace { e + 1 } else { e });
        }
        loop
            invariant
                toks == old(self).tokens@,
                c0 < e <= p0 <= self.pos,
                p0 == trivia_end(toks, b),
                b == if e < toks.len() && toks[e].token_type is LeftBrace { e + 1 } else { e },
                labels.len() == cases@.len(),
                labels.len() == 0 ==> self.pos == p0,
                labels.len() > 0 ==> labels[0] == p0 && labels.last() < self.pos,
                forall|i: int|
                    0 <= i < labels.len() ==> {
                        &&& (#[trigger] labels[i]) < self.pos
                        &&& (toks[labels[i]].token_type is Case || toks[labels[i]].token_type is DefaultCase)
                        &&& (toks[labels[i]].token_type is Case <==> cases@[i].control_word is Case)
                    },
                forall|i: int| 0 < i < labels.len() ==> labels[i - 1] < #[trigger] labels[i],
                comments_view(comments_after_lbrace) == trivia_run(toks, b),
                flat_tokens(condition) matches Some(ts) ==> ts == toks.subrange(c0, e),
                comments_view(comments_after_control_word) == trivia_run(toks, old(self).pos as int),
                c0 == trivia_end(toks, old(self).pos as int),
                self.advanced(old(self)),
                forall|i: int|
                    0 <= i < cases@.len() ==> {
                        &&& (#[trigger] cases@[i].control_word matches CaseType::Case(e) ==> expr_printable(e))
                        &&& run_printable(cases@[i].comments_after_control_word)
                        &&& run_printable(cases@[i].comments_after_colon)
                        &&& forall|j: int|
                            0 <= j < cases@[i].statements@.len() ==> stmt_printable(*#[trigger] cases@[i].statements@[j])
                    },
            ensures
                self.pos == self.tokens.len() || toks[self.pos as int].token_type is RightBrace,
            decreases self.rest(),
        {
            let token = match self.peek() {
                Some(token) => token,
                None => {
                    break;
                },
            };
            match token.token_type {
                TokenType::Case => {
                    let ghost at = self.pos as int;
                    self.consume_next();
                    let comments_after_control_word = self.get_newlines_and_comments();
                    let constant = self.expression()?;
                    self.check_next_consume(TokenType::Colon);
                    let comments_after_colon = self.get_newlines_and_comments();
                    let statements = self.case_body()?;
                    cases.push(
                        Case {
                            comments_after_control_word,
                            control_word: CaseType::Case(constant),
                            comments_after_colon,
                            statements,
                        },
                    );
                    proof {
                        let nl = labels.push(at);
                        assert forall|i: int| 0 < i < nl.len() implies nl[i - 1] < #[trigger] nl[i] by {
                            if i < labels.len() {
                                assert(nl[i] == labels[i]);
                            }
                            assert(nl[i - 1] == labels[i - 1]);
                        }
                        assert forall|i: int| 0 <= i < nl.len() implies {
                            &&& (#[trigger] nl[i]) < self.pos
                            &&& (toks[nl[i]].token_type is Case || toks[nl[i]].token_type is DefaultCase)
                            &&& (toks[nl[i]].token_type is Case <==> cases@[i].control_word is Case)
                        } by {
                            if i < labels.len() {
                                assert(nl[i] == labels[i]);
                            }
                        }
                        labels = nl;
                    }
                },
                TokenType::DefaultCase => {
                    let ghost at = self.pos as int;
                    self.consume_next();
                    let comments_after_control_word = self.get_newlines_and_comments();
                    self.check_next_consume(TokenType::Colon);
                    let comments_after_colon = self.get_newlines_and_comments();
                    let statements = self.case_body()?;
                    cases.push(
                        Case {
                            comments_after_control_word,
                            control_word: CaseType::Default,
                            comments_after_colon,
                            statements,
                        },
                    );
                    proof {
                        let nl = labels.push(at);
                        assert forall|i: int| 0 < i < nl.len() implies nl[i - 1] < #[trigger] nl[i] by {
                            if i < labels.len() {
                                assert(nl[i] == labels[i]);
                            }
                            assert(nl[i - 1] == labels[i - 1]);
                        }
                        assert forall|i: int| 0 <= i < nl.len() implies {
                            &&& (#[trigger] nl[i]) < self.pos
                            &&& (toks[nl[i]].token_type is Case || toks[nl[i]].token_type is DefaultCase)
                            &&& (toks[nl[i]].token_type is Case <==> cases@[i].control_word is Case)
                        } by {
                            if i < labels.len() {
                                assert(nl[i] == labels[i]);
                            }
                        }
                        labels = nl;
                    }
                },
                TokenType::RightBrace => {
                    break;
                },
                _ => {
                    return Err(ParseError::UnknownTokenInSwitch(token));
                },
            }
        }
        let ghost q = self.pos as int;
        self.check_next_consume(TokenType::RightBrace);
        let has_semicolon = self.check_next_consume(TokenType::Semicolon);
        proof {
            assert(switch_layout(toks, c0, e, labels, q, self.pos as int, condition, comments_after_lbrace, cases@));
        }
        Ok(StatementWrapper::new(
            Statement::Switch { comments_after_control_word, comments_after_lbrace, cases, condition },
            has_semicolon,
        ))
    }

    fn case_body(&mut self) -> (r: Result<Vec<StmtBox<'a>>, ParseError<'a>>)
        requires
            old(self).wf(),
        ensures
            r matches Err(e) ==> error_fits(e, old(self).tokens@, old(self).pos as int, final(self).pos as int),
            r matches Ok(v) ==> forall|i: int| 0 <= i < v@.len() ==> stmt_printable(*#[trigger] v@[i]),
            final(self).advanced(old(self)),
        decreases old(self).rest(), 21nat,
    {
        let mut statements: Vec<StmtBox<'a>> = Vec::new();
        loop
            invariant
                self.advanced(old(self)),
                forall|i: int| 0 <= i < statements@.len() ==> stmt_printable(*#[trigger] statements@[i]),
            decreases self.rest(),
        {
            match self.peek() {
                Some(token) => {
                    match token.token_type {
                        TokenType::DefaultCase | TokenType::Case | TokenType::RightBrace => {
                            break;
                        },
                        _ => {
                            statements.push(self.statement()?);
                        },
                    }
                },
                None => {
                    break;
                },
            }
        }
        Ok(statements)
    }

    #[verifier::rlimit(30)]
    fn for_statement(&mut self) -> (r: Result<StmtBox<'a>, ParseError<'a>>)
        requires
            old(self).wf(),
        ensures
            r matches Err(e) ==> error_fits(e, old(self).tokens@, old(self).pos as int, final(self).pos as int),
            r matches Ok(st) ==> stmt_printable(*st),
            final(self).advanced(old(self)),
            r matches Ok(st) ==> st.statement is For,
        decreases old(self).rest(), 21nat,
    {
        let comments_after_control_word = self.get_newlines_and_comments();
        self.check_next_consume(TokenType::LeftParen);
        let comments_after_lparen = self.get_newlines_and_comments();
        let initializer = if self.check_next_consume(TokenType::Semicolon) {
            None
        } else if self.check_next(TokenType::Var) {
            Some(self.series_var_declaration()?)
        } else {
            Some(self.expression_statement()?)
        };
        let comments_after_initializer = self.get_newlines_and_comments();
        let condition = if self.check_next_consume(TokenType::Semicolon) {
            None
        } else {
            Some(self.expression()?)
        };
        self.check_next_consume(TokenType::Semicolon);
        let comments_after_condition = self.get_newlines_and_comments();
        let increment = if self.check_next(TokenType::RightParen) {
            None
        } else {
            Some(self.expression()?)
        };
        self.check_next_consume(TokenType::Semicolon);
        let comments_after_increment = self.get_newlines_and_comments();
        self.check_next_consume(TokenType::RightParen);
        let comments_after_rparen = self.get_newlines_and_comments();
        let body = self.statement()?;
        let has_semicolon = self.check_next_consume(TokenType::Semicolon);
        Ok(StatementWrapper::new(
            Statement::For {
                comments_after_control_word,
                comments_after_lparen,
                initializer,
                comments_after_initializer,
                condition,
                comments_after_condition,
                increment,
                comments_after_increment,
                comments_after_rparen,
                body,
            },
            has_semicolon,
        ))
    }

    fn return_statement(&mut self) -> (r: Result<StmtBox<'a>, ParseError<'a>>)
        requires
            old(self).wf(),
        ensures
            r matches Err(e) ==> error_fits(e, old(self).tokens@, old(self).pos as int, final(self).pos as int),
            r matches Ok(st) ==> stmt_printable(*st),
            final(self).advanced(old(self)),
            r matches Ok(st) ==> st.statement is Return,
            old(self).can_pair && old(self).next_is(TokenType::Semicolon) ==> {
                &&& r matches Ok(st) && st.statement == (Statement::Return { expression: None }) && st.has_semicolon
                &&& final(self).pos == old(self).pos + 1
                &&& final(self).check_leftovers == old(self).check_leftovers
            },
            plain_at(old(self).tokens@, old(self).pos as int) && old(self).can_pair ==> {
                &&& r matches Ok(st) && st.has_semicolon && (st.statement matches Statement::Return { expression: Some(e) }
                    && flat_pieces(e) == Some(spaced_words(old(self).tokens@.subrange(old(self).pos as int, alt_end(old(self).tokens@, old(self).pos as int)))))
                &&& final(self).pos == alt_end(old(self).tokens@, old(self).pos as int) + 1
                &&& final(self).check_leftovers == old(self).check_leftovers
            },
        decreases old(self).rest(), 21nat,
    {
        let expression = if self.check_next(TokenType::Semicolon) {
            None
        } else {
            Some(self.expression()?)
        };
        let has_semicolon = self.check_next_consume(TokenType::Semicolon);
        Ok(StatementWrapper::new(Statement::Return { expression }, has_semicolon))
    }

    fn break_statement(&mut self) -> (r: Result<StmtBox<'a>, ParseError<'a>>)
        requires
            old(self).wf(),
        ensures
            r matches Err(e) ==> error_fits(e, old(self).tokens@, old(self).pos as int, final(self).pos as int),
            r matches Ok(st) ==> stmt_printable(*st),
            final(self).advanced(old(self)),
            r matches Ok(stmt) && stmt.statement is Break,
            r matches Ok(stmt) && stmt.has_semicolon == (old(self).can_pair && old(self).next_is(TokenType::Semicolon)),
            final(self).pos == old(self).pos + if old(self).can_pair && old(self).next_is(TokenType::Semicolon) {
                1int
            } else {
                0int
            },
            final(self).check_leftovers == old(self).check_leftovers,
    {
        let has_semicolon = self.check_next_consume(TokenType::Semicolon);
        Ok(StatementWrapper::new(Statement::Break, has_semicolon))
    }

    fn exit_statment(&mut self) -> (r: Result<StmtBox<'a>, ParseError<'a>>)
        requires
            old(self).wf(),
        ensures
            r matches Err(e) ==> error_fits(e, old(self).tokens@, old(self).pos as int, final(self).pos as int),
            r matches Ok(st) ==> stmt_printable(*st),
            final(self).advanced(old(self)),
            r matches Ok(stmt) && stmt.statement is Exit,
            r matches Ok(stmt) && stmt.has_semicolon == (old(self).can_pair && old(self).next_is(TokenType::Semicolon)),
            final(self).pos == old(self).pos + if old(self).can_pair && old(self).next_is(TokenType::Semicolon) {
                1int
            } else {
                0int
            },
            final(self).check_leftovers == old(self).check_leftovers,
    {
        let has_semicolon = self.check_next_consume(TokenType::Semicolon);
        Ok(StatementWrapper::new(Statement::Exit, has_semicolon))
    }

    fn enum_declaration(&mut self) -> (r: Result<StmtBox<'a>, ParseError<'a>>)
        requires
            old(self).wf(),
        ensures
            r matches Err(e) ==> error_fits(e, old(self).tokens@, old(self).pos as int, final(self).pos as int),
            r matches Ok(st) ==> stmt_printable(*st),
            final(self).advanced(old(self)),
            r matches Ok(st) ==> st.statement is EnumDeclaration,
        decreases old(self).rest(), 21nat,
    {
        let comments_after_control_word = self.get_newlines_and_comments();
        let name = self.expression()?;
        self.check_next_consume(TokenType::LeftBrace);
        let comments_after_lbrace = self.get_newlines_and_comments();
        let members = self.finish_call(TokenType::RightBrace, TokenType::Comma)?;
        let has_semicolon = self.check_next_consume(TokenType::Semicolon);
        Ok(StatementWrapper::new(
            Statement::EnumDeclaration { comments_after_control_word, name, comments_after_lbrace, members },
            has_semicolon,
        ))
    }

    fn expression_statement(&mut self) -> (r: Result<StmtBox<'a>, ParseError<'a>>)
        requires
            old(self).wf(),
        ensures
            r matches Err(e) ==> error_fits(e, old(self).tokens@, old(self).pos as int, final(self).pos as int),
            r matches Ok(st) ==> stmt_printable(*st),
            final(self).advanced(old(self)),
            r is Ok ==> old(self).pos < final(self).pos,
            r matches Ok(st) ==> st.statement is ExpresssionStatement,
            lone_newline(old(self).tokens@, old(self).pos as int) ==> {
                &&& r matches Ok(st) && is_newline_statement(*st)
                &&& final(self).pos == old(self).pos + 1
                &&& final(self).check_leftovers == old(self).check_leftovers
            },
            r matches Ok(st) ==> (st.statement matches Statement::ExpresssionStatement { expression } ==> (flat_tokens(
                expression,
            ) matches Some(ts) ==> {
                let end = if st.has_semicolon { final(self).pos - 1 } else { final(self).pos as int };
                &&& ts == old(self).tokens@.subrange(old(self).pos as int, end)
                &&& st.has_semicolon ==> old(self).tokens@[end].token_type is Semicolon
            })),
            plain_at(old(self).tokens@, old(self).pos as int) && old(self).can_pair ==> {
                &&& r matches Ok(st) && simple_pieces(*st) == Some(plain_statement_pieces(old(self).tokens@, old(self).pos as int))
                &&& final(self).pos == alt_end(old(self).tokens@, old(self).pos as int) + 1
                &&& final(self).check_leftovers == old(self).check_leftovers
            },
            dangling_at(old(self).tokens@, old(self).pos as int) && old(self).can_pair ==> r matches Err(ParseError::UnexpectedEnd),
        decreases old(self).rest(), 18nat,
    {
        let expr = self.expression()?;
        proof {
            if plain_at(old(self).tokens@, old(self).pos as int) && old(self).can_pair {
                lemma_plain_last_word(old(self).tokens@, old(self).pos as int);
            }
        }
        let has_semicolon = self.check_next_consume(TokenType::Semicolon);
        Ok(StatementWrapper::new(Statement::ExpresssionStatement { expression: expr }, has_semicolon))
    }

    fn expression(&mut self) -> (r: Result<ExprBox<'a>, ParseError<'a>>)
        requires
            old(self).wf(),
        ensures
            r matches Ok(e) ==> expr_printable(e),
            final(self).advanced(old(self)),
            r is Ok ==> old(self).pos < final(self).pos,
            r is Ok ==> final(self).can_pair,
            r matches Err(e) ==> error_fits(e, old(self).tokens@, old(self).pos as int, final(self).pos as int),
            lone_newline(old(self).tokens@, old(self).pos as int) ==> {
                &&& r matches Ok(e) && e.expr is Newline && e.trailing_comments is None
                &&& final(self).pos == old(self).pos + 1
                &&& final(self).check_leftovers == old(self).check_leftovers
            },
            r matches Ok(e) ==> (flat_tokens(e) matches Some(ts) ==> ts == old(self).tokens@.subrange(old(self).pos as int, final(self).pos as int)),
            old(self).plain_parsed(*final(self), r, 1),
            dangling_at(old(self).tokens@, old(self).pos as int) && old(self).can_pair ==> r matches Err(ParseError::UnexpectedEnd),
            old(self).pos == old(self).tokens.len() ==> r matches Err(ParseError::UnexpectedEnd),
        decreases old(self).rest(), 16nat,
    {
        self.allow_unidentified = true;
        let ret = self.assignment()?;
        self.can_pair = true;
        self.allow_unidentified = false;
        Ok(ret)
    }

    fn function_declaration(&mut self) -> (r: Result<ExprBox<'a>, ParseError<'a>>)
        requires
            old(self).wf(),
        ensures
            r matches Err(e) ==> error_fits(e, old(self).tokens@, old(self).pos as int, final(self).pos as int),
            r matches Ok(e) ==> expr_printable(e),
            final(self).advanced(old(self)),
            r is Ok ==> old(self).pos < final(self).pos,
            r matches Ok(e) ==> e.expr is Function,
        decreases old(self).rest(), 17nat,
    {
        let comments_after_control_word = self.get_newlines_and_comments();
        let call = self.expression()?;
        let comments_after_rparen = self.get_newlines_and_comments();
        let is_constructor = self.check_next_consume(TokenType::Constructor);
        Ok(self.create_comment_expr_box(Expr::Function { comments_after_control_word, call, comments_after_rparen, is_constructor }))
    }

    fn struct_operation(&mut self, token: Token<'a>) -> (r: Result<ExprBox<'a>, ParseError<'a>>)
        requires
            old(self).wf(),
            token_printable(token),
        ensures
            r matches Err(e) ==> error_fits(e, old(self).tokens@, old(self).pos as int, final(self).pos as int),
            r matches Ok(e) ==> expr_printable(e),
            final(self).advanced(old(self)),
            r is Ok ==> old(self).pos < final(self).pos,
            r matches Ok(e) ==> e.expr is StructOperator,
        decreases old(self).rest(), 17nat,
    {
        let comments_before_expression = self.get_newlines_and_comments();
        let expression = self.expression()?;
        Ok(self.create_comment_expr_box(Expr::StructOperator { token, comments_before_expression, expression }))
    }

    fn assignment(&mut self) -> (r: Result<ExprBox<'a>, ParseError<'a>>)
        requires
            old(self).wf(),
        ensures
            r matches Err(e) ==> error_fits(e, old(self).tokens@, old(self).pos as int, final(self).pos as int),
            r matches Ok(e) ==> expr_printable(e),
            final(self).advanced(old(self)),
            r is Ok ==> old(self).pos < final(self).pos,
            old(self).newline_parsed(*final(self), r),
            r matches Ok(e) ==> (flat_tokens(e) matches Some(ts) ==> ts == old(self).tokens@.subrange(old(self).pos as int, final(self).pos as int)),
            old(self).plain_parsed(*final(self), r, 1),
            old(self).dangling_parsed(*final(self), r, 1),
            old(self).pos == old(self).tokens.len() ==> r matches Err(ParseError::UnexpectedEnd),
        decreases old(self).rest(), 15nat,
    {
        let mut expr = self.ternary()?;
        if let Expr::UnidentifiedAsLiteral { literal_token } = expr.expr {
            match literal_token.token_type {
                TokenType::Function => {
                    expr = self.function_declaration()?;
                },
                TokenType::New | TokenType::Delete => {
                    expr = self.struct_operation(literal_token)?;
                },
                _ => {},
            }
        }
        if self.can_pair {
            if let Some(token) = self.peek() {
                match token.token_type {
                    TokenType::Equal
                    | TokenType::PlusEquals
                    | TokenType::MinusEquals
                    | TokenType::StarEquals
                    | TokenType::SlashEquals
                    | TokenType::BitXorEquals
                    | TokenType::BitOrEquals
                    | TokenType::BitAndEquals
                    | TokenType::ModEquals => {
                        let ghost p1 = self.pos as int;
                        let ghost left = expr;
                        let operator = self.consume_next();
                        proof {
                            if plain_at(old(self).tokens@, old(self).pos as int) && old(self).can_pair {
                                lemma_plain_inner(old(self).tokens@, old(self).pos as int, p1);
                                lemma_plain_start(old(self).tokens@, p1 + 1);
                            }
                        }
                        let comments_and_newlines_between_op_and_r = self.get_newlines_and_comments();
                        let ghost p2 = self.pos as int;
                        let assignment_expr = self.assignment()?;
                        proof {
                            lemma_join_tokens(old(self).tokens@, old(self).pos as int, p1, self.pos as int);
                        }
                        expr = self.create_expr_box_no_comment(Expr::Assign {
                            left: expr,
                            operator: operator,
                            comments_and_newlines_between_op_and_r,
                            right: assignment_expr,
                        });
                        proof {
                            if plain_at(old(self).tokens@, old(self).pos as int) && old(self).can_pair {
                                lemma_plain_combine(old(self).tokens@, old(self).pos as int, p1, self.pos as int, 3, 1, left, assignment_expr, expr);
                            }
                            if flat_tokens(expr) is Some {
                                assert(comments_and_newlines_between_op_and_r is None);
                                assert(p2 == p1 + 1);
                                assert(flat_tokens(left)->0 == old(self).tokens@.subrange(old(self).pos as int, p1));
                                assert(flat_tokens(assignment_expr)->0 == old(self).tokens@.subrange(p2, self.pos as int));
                                assert(flat_tokens(expr)->0 == old(self).tokens@.subrange(old(self).pos as int, self.pos as int));
                            }
                        }
                    },
                    _ => {},
                }
            }
        }
        Ok(expr)
    }

    fn ternary(&mut self) -> (r: Result<ExprBox<'a>, ParseError<'a>>)
        requires
            old(self).wf(),
        ensures
            r matches Err(e) ==> error_fits(e, old(self).tokens@, old(self).pos as int, final(self).pos as int),
            r matches Ok(e) ==> expr_printable(e),
            final(self).advanced(old(self)),
            r is Ok ==> old(self).pos < final(self).pos,
            old(self).newline_parsed(*final(self), r),
            r matches Ok(e) ==> (flat_tokens(e) matches Some(ts) ==> ts == old(self).tokens@.subrange(old(self).pos as int, final(self).pos as int)),
            old(self).plain_parsed(*final(self), r, 3),
            old(self).dangling_parsed(*final(self), r, 3),
            old(self).pos == old(self).tokens.len() ==> r matches Err(ParseError::UnexpectedEnd),
        decreases old(self).rest(), 14nat,
    {
        let mut expr = self.or()?;
        if self.check_next_consume(TokenType::Hook) {
            let comments_and_newlines_after_q = self.get_newlines_and_comments();
            let left = self.ternary()?;
            self.check_next_consume(TokenType::Colon);
            let comments_and_newlines_after_colon = self.get_newlines_and_comments();
            let right = self.ternary()?;
            expr = self.create_expr_box_no_comment(Expr::Ternary {
                conditional: expr,
                comments_and_newlines_after_q,
                left,
                comments_and_newlines_after_colon,
                right,
            });
        }
        Ok(expr)
    }

    fn or(&mut self) -> (r: Result<ExprBox<'a>, ParseError<'a>>)
        requires
            old(self).wf(),
        ensures
            r matches Err(e) ==> error_fits(e, old(self).tokens@, old(self).pos as int, final(self).pos as int),
            r matches Ok(e) ==> expr_printable(e),
            final(self).advanced(old(self)),
            r is Ok ==> old(self).pos < final(self).pos,
            old(self).newline_parsed(*final(self), r),
            r matches Ok(e) ==> (flat_tokens(e) matches Some(ts) ==> ts == old(self).tokens@.subrange(old(self).pos as int, final(self).pos as int)),
            old(self).plain_parsed(*final(self), r, 3),
            old(self).dangling_parsed(*final(self), r, 3),
            old(self).pos == old(self).tokens.len() ==> r matches Err(ParseError::UnexpectedEnd),
        decreases old(self).rest(), 13nat,
    {
        let mut left = self.and()?;
        if self.check_next_either(TokenType::LogicalOr, TokenType::OrAlias) {
            let ghost p1 = self.pos as int;
            let token = self.consume_next();
            proof {
                if plain_at(old(self).tokens@, old(self).pos as int) && old(self).can_pair {
                    lemma_plain_inner(old(self).tokens@, old(self).pos as int, p1);
                    lemma_plain_start(old(self).tokens@, p1 + 1);
                }
            }
            let comments_and_newlines_between_op_and_r = self.get_newlines_and_comments();
            let right = self.or()?;
            proof {
                lemma_join_tokens(old(self).tokens@, old(self).pos as int, p1, self.pos as int);
            }
            let ghost left0 = left;
            let ghost right0 = right;
            left = self.create_expr_box_no_comment(Expr::Binary {
                left,
                operator: token,
                comments_and_newlines_between_op_and_r,
                right,
            });
            proof {
                if plain_at(old(self).tokens@, old(self).pos as int) && old(self).can_pair {
                    lemma_plain_combine(old(self).tokens@, old(self).pos as int, p1, self.pos as int, 4, 3, left0, right0, left);
                }
            }
        }
        Ok(left)
    }

    fn and(&mut self) -> (r: Result<ExprBox<'a>, ParseError<'a>>)
        requires
            old(self).wf(),
        ensures
            r matches Err(e) ==> error_fits(e, old(self).tokens@, old(self).pos as int, final(self).pos as int),
            r matches Ok(e) ==> expr_printable(e),
            final(self).advanced(old(self)),
            r is Ok ==> old(self).pos < final(self).pos,
            old(self).newline_parsed(*final(self), r),
            r matches Ok(e) ==> (flat_tokens(e) matches Some(ts) ==> ts == old(self).tokens@.subrange(old(self).pos as int, final(self).pos as int)),
            old(self).plain_parsed(*final(self), r, 4),
            old(self).dangling_parsed(*final(self), r, 4),
            old(self).pos == old(self).tokens.len() ==> r matches Err(ParseError::UnexpectedEnd),
        decreases old(self).rest(), 12nat,
    {
        let mut left = self.xor()?;
        if self.check_next_either(TokenType::LogicalAnd, TokenType::AndAlias) {
            let ghost p1 = self.pos as int;
            let token = self.consume_next();
            proof {
                if plain_at(old(self).tokens@, old(self).pos as int) && old(self).can_pair {
                    lemma_plain_inner(old(self).tokens@, old(self).pos as int, p1);
                    lemma_plain_start(old(self).tokens@, p1 + 1);
                }
            }
            let comments_and_newlines_between_op_and_r = self.get_newlines_and_comments();
            let right = self.and()?;
            proof {
                lemma_join_tokens(old(self).tokens@, old(self).pos as int, p1, self.pos as int);
            }
            let ghost left0 = left;
            let ghost right0 = right;
            left = self.create_expr_box_no_comment(Expr::Binary {
                left,
                operator: token,
                comments_and_newlines_between_op_and_r,
                right,
            });
            proof {
                if plain_at(old(self).tokens@, old(self).pos as int) && old(self).can_pair {
                    lemma_plain_combine(old(self).tokens@, old(self).pos as int, p1, self.pos as int, 5, 4, left0, right0, left);
                }
            }
        }
        Ok(left)
    }

    fn xor(&mut self) -> (r: Result<ExprBox<'a>, ParseError<'a>>)
        requires
            old(self).wf(),
        ensures
            r matches Err(e) ==> error_fits(e, old(self).tokens@, old(self).pos as int, final(self).pos as int),
            r matches Ok(e) ==> expr_printable(e),
            final(self).advanced(old(self)),
            r is Ok ==> old(self).pos < final(self).pos,
            old(self).newline_parsed(*final(self), r),
            r matches Ok(e) ==> (flat_tokens(e) matches Some(ts) ==> ts == old(self).tokens@.subrange(old(self).pos as int, final(self).pos as int)),
            old(self).plain_parsed(*final(self), r, 5),
            old(self).dangling_parsed(*final(self), r, 5),
            old(self).pos == old(self).tokens.len() ==> r matches Err(ParseError::UnexpectedEnd),
        decreases old(self).rest(), 11nat,
    {
        let mut left = self.equality()?;
        if self.check_next_either(TokenType::LogicalXor, TokenType::XorAlias) {
            let ghost p1 = self.pos as int;
            let token = self.consume_next();
            proof {
                if plain_at(old(self).tokens@, old(self).pos as int) && old(self).can_pair {
                    lemma_plain_inner(old(self).tokens@, old(self).pos as int, p1);
                    lemma_plain_start(old(self).tokens@, p1 + 1);
                }
            }
            let comments_and_newlines_between_op_and_r = self.get_newlines_and_comments();
            let right = self.xor()?;
            proof {
                lemma_join_tokens(old(self).tokens@, old(self).pos as int, p1, self.pos as int);
            }
            let ghost left0 = left;
            let ghost right0 = right;
            left = self.create_expr_box_no_comment(Expr::Binary {
                left,
                operator: token,
                comments_and_newlines_between_op_and_r,
                right,
            });
            proof {
                if plain_at(old(self).tokens@, old(self).pos as int) && old(self).can_pair {
                    lemma_plain_combine(old(self).tokens@, old(self).pos as int, p1, self.pos as int, 6, 5, left0, right0, left);
                }
            }
        }
        Ok(left)
    }

    fn equality(&mut self) -> (r: Result<ExprBox<'a>, ParseError<'a>>)
        requires
            old(self).wf(),
        ensures
            r matches Err(e) ==> error_fits(e, old(self).tokens@, old(self).pos as int, final(self).pos as int),
            r matches Ok(e) ==> expr_printable(e),
            final(self).advanced(old(self)),
            r is Ok ==> old(self).pos < final(self).pos,
            old(self).newline_parsed(*final(self), r),
            r matches Ok(e) ==> (flat_tokens(e) matches Some(ts) ==> ts == old(self).tokens@.subrange(old(self).pos as int, final(self).pos as int)),
            old(self).plain_parsed(*final(self), r, 6),
            old(self).dangling_parsed(*final(self), r, 6),
            old(self).pos == old(self).tokens.len() ==> r matches Err(ParseError::UnexpectedEnd),
        decreases old(self).rest(), 10nat,
    {
        let mut expr = self.comparison()?;
        if self.can_pair {
            loop
                invariant
                    self.advanced(old(self)),
                    old(self).pos < self.pos,
                    !lone_newline(old(self).tokens@, old(self).pos as int),
                    flat_tokens(expr) matches Some(ts) ==> ts == old(self).tokens@.subrange(old(self).pos as int, self.pos as int),
                    expr_printable(expr),
                    plain_at(old(self).tokens@, old(self).pos as int) && old(self).can_pair ==> (parsed_plain(old(self).tokens@, old(self).pos as int, self.pos as int, 7, expr)
                        && self.can_pair && self.check_leftovers == old(self).check_leftovers),
                    dangling_at(old(self).tokens@, old(self).pos as int) && old(self).can_pair ==> (cut_short(old(self).tokens@, old(self).pos as int, self.pos as int, 7) && self.can_pair
                        && !(expr.expr is UnidentifiedAsLiteral)),
                ensures
                    dangling_at(old(self).tokens@, old(self).pos as int) && old(self).can_pair ==> (cut_short(old(self).tokens@, old(self).pos as int, self.pos as int, 6) && self.can_pair
                        && !(expr.expr is UnidentifiedAsLiteral)),
                    plain_at(old(self).tokens@, old(self).pos as int) && old(self).can_pair ==> (parsed_plain(old(self).tokens@, old(self).pos as int, self.pos as int, 6, expr)
                        && self.can_pair && self.check_leftovers == old(self).check_leftovers),
                decreases self.rest(),
            {
                let t = match self.peek() {
                    Some(t) => t,
                    None => {
                        break;
                    },
                };
                match t.token_type {
                    TokenType::EqualEqual | TokenType::BangEqual => {
                        let ghost p1 = self.pos as int;
                        let token = self.consume_next();
                        proof {
                            if plain_at(old(self).tokens@, old(self).pos as int) && old(self).can_pair {
                                lemma_plain_inner(old(self).tokens@, old(self).pos as int, p1);
                                lemma_plain_start(old(self).tokens@, p1 + 1);
                            }
                        }
                        let comments_and_newlines_between_op_and_r = self.get_newlines_and_comments();
                        let right = self.comparison()?;
                        proof {
                            lemma_join_tokens(old(self).tokens@, old(self).pos as int, p1, self.pos as int);
                        }
                        let ghost left0 = expr;
                        let ghost right0 = right;
                        expr = self.create_expr_box_no_comment(Expr::Binary {
                            left: expr,
                            operator: token,
                            comments_and_newlines_between_op_and_r,
                            right,
                        });
                        proof {
                            if plain_at(old(self).tokens@, old(self).pos as int) && old(self).can_pair {
                                lemma_plain_combine(old(self).tokens@, old(self).pos as int, p1, self.pos as int, 7, 7, left0, right0, expr);
                            }
                        }
                    },
                    _ => {
                        break;
                    },
                }
            }
        }
        Ok(expr)
    }

    fn comparison(&mut self) -> (r: Result<ExprBox<'a>, ParseError<'a>>)
        requires
            old(self).wf(),
        ensures
            r matches Err(e) ==> error_fits(e, old(self).tokens@, old(self).pos as int, final(self).pos as int),
            r matches Ok(e) ==> expr_printable(e),
            final(self).advanced(old(self)),
            r is Ok ==> old(self).pos < final(self).pos,
            old(self).newline_parsed(*final(self), r),
            r matches Ok(e) ==> (flat_tokens(e) matches Some(ts) ==> ts == old(self).tokens@.subrange(old(self).pos as int, final(self).pos as int)),
            old(self).plain_parsed(*final(self), r, 7),
            old(self).dangling_parsed(*final(self), r, 7),
            old(self).pos == old(self).tokens.len() ==> r matches Err(ParseError::UnexpectedEnd),
        decreases old(self).rest(), 9nat,
    {
        let mut expr = self.binary()?;
        if self.can_pair {
            loop
                invariant
                    self.advanced(old(self)),
                    old(self).pos < self.pos,
                    !lone_newline(old(self).tokens@, old(self).pos as int),
                    flat_tokens(expr) matches Some(ts) ==> ts == old(self).tokens@.subrange(old(self).pos as int, self.pos as int),
                    expr_printable(expr),
                    plain_at(old(self).tokens@, old(self).pos as int) && old(self).can_pair ==> (parsed_plain(old(self).tokens@, old(self).pos as int, self.pos as int, 8, expr)
                        && self.can_pair && self.check_leftovers == old(self).check_leftovers),
                    dangling_at(old(self).tokens@, old(self).pos as int) && old(self).can_pair ==> (cut_short(old(self).tokens@, old(self).pos as int, self.pos as int, 8) && self.can_pair
                        && !(expr.expr is UnidentifiedAsLiteral)),
                ensures
                    dangling_at(old(self).tokens@, old(self).pos as int) && old(self).can_pair ==> (cut_short(old(self).tokens@, old(self).pos as int, self.pos as int, 7) && self.can_pair
                        && !(expr.expr is UnidentifiedAsLiteral)),
                    plain_at(old(self).tokens@, old(self).pos as int) && old(self).can_pair ==> (parsed_plain(old(self).tokens@, old(self).pos as int, self.pos as int, 7, expr)
                        && self.can_pair && self.check_leftovers == old(self).check_leftovers),
                decreases self.rest(),
            {
                let t = match self.peek() {
                    Some(t) => t,
                    None => {
                        break;
                    },
                };
                match t.token_type {
                    TokenType::Greater | TokenType::GreaterEqual | TokenType::Less | TokenType::LessEqual => {
                        let ghost p1 = self.pos as int;
                        let token = self.consume_next();
                        proof {
                            if plain_at(old(self).tokens@, old(self).pos as int) && old(self).can_pair {
                                lemma_plain_inner(old(self).tokens@, old(self).pos as int, p1);
                                lemma_plain_start(old(self).tokens@, p1 + 1);
                            }
                        }
                        let comments_and_newlines_between_op_and_r = self.get_newlines_and_comments();
                        let right = self.binary()?;
                        proof {
                            lemma_join_tokens(old(self).tokens@, old(self).pos as int, p1, self.pos as int);
                        }
                        let ghost left0 = expr;
                        let ghost right0 = right;
                        expr = self.create_expr_box_no_comment(Expr::Binary {
                            left: expr,
                            operator: token,
                            comments_and_newlines_between_op_and_r,
                            right,
                        });
                        proof {
                            if plain_at(old(self).tokens@, old(self).pos as int) && old(self).can_pair {
                                lemma_plain_combine(old(self).tokens@, old(self).pos as int, p1, self.pos as int, 8, 8, left0, right0, expr);
                            }
                        }
                    },
                    _ => {
                        break;
                    },
                }
            }
        }
        Ok(expr)
    }

    fn binary(&mut self) -> (r: Result<ExprBox<'a>, ParseError<'a>>)
        requires
            old(self).wf(),
        ensures
            r matches Err(e) ==> error_fits(e, old(self).tokens@, old(self).pos as int, final(self).pos as int),
            r matches Ok(e) ==> expr_printable(e),
            final(self).advanced(old(self)),
            r is Ok ==> old(self).pos < final(self).pos,
            old(self).newline_parsed(*final(self), r),
            r matches Ok(e) ==> (flat_tokens(e) matches Some(ts) ==> ts == old(self).tokens@.subrange(old(self).pos as int, final(self).pos as int)),
            old(self).plain_parsed(*final(self), r, 8),
            old(self).dangling_parsed(*final(self), r, 8),
            old(self).pos == old(self).tokens.len() ==> r matches Err(ParseError::UnexpectedEnd),
        decreases old(self).rest(), 8nat,
    {
        let mut expr = self.bitshift()?;
        if self.can_pair {
            loop
                invariant
                    self.advanced(old(self)),
                    old(self).pos < self.pos,
                    !lone_newline(old(self).tokens@, old(self).pos as int),
                    flat_tokens(expr) matches Some(ts) ==> ts == old(self).tokens@.subrange(old(self).pos as int, self.pos as int),
                    expr_printable(expr),
                    plain_at(old(self).tokens@, old(self).pos as int) && old(self).can_pair ==> (parsed_plain(old(self).tokens@, old(self).pos as int, self.pos as int, 9, expr)
                        && self.can_pair && self.check_leftovers == old(self).check_leftovers),
                    dangling_at(old(self).tokens@, old(self).pos as int) && old(self).can_pair ==> (cut_short(old(self).tokens@, old(self).pos as int, self.pos as int, 9) && self.can_pair
                        && !(expr.expr is UnidentifiedAsLiteral)),
                ensures
                    dangling_at(old(self).tokens@, old(self).pos as int) && old(self).can_pair ==> (cut_short(old(self).tokens@, old(self).pos as int, self.pos as int, 8) && self.can_pair
                        && !(expr.expr is UnidentifiedAsLiteral)),
                    plain_at(old(self).tokens@, old(self).pos as int) && old(self).can_pair ==> (parsed_plain(old(self).tokens@, old(self).pos as int, self.pos as int, 8, expr)
                        && self.can_pair && self.check_leftovers == old(self).check_leftovers),
                decreases self.rest(),
            {
                let t = match self.peek() {
                    Some(t) => t,
                    None => {
                        break;
                    },
                };
                match t.token_type {
                    TokenType::BitAnd | TokenType::BitOr | TokenType::BitXor => {
                        let ghost p1 = self.pos as int;
                        let token = self.consume_next();
                        proof {
                            if plain_at(old(self).tokens@, old(self).pos as int) && old(self).can_pair {
                                lemma_plain_inner(old(self).tokens@, old(self).pos as int, p1);
                                lemma_plain_start(old(self).tokens@, p1 + 1);
                            }
                        }
                        let comments_and_newlines_between_op_and_r = self.get_newlines_and_comments();
                        let right = self.bitshift()?;
                        proof {
                            lemma_join_tokens(old(self).tokens@, old(self).pos as int, p1, self.pos as int);
                        }
                        let ghost left0 = expr;
                        let ghost right0 = right;
                        expr = self.create_expr_box_no_comment(Expr::Binary {
                            left: expr,
                            operator: token,
                            comments_and_newlines_between_op_and_r,
                            right,
                        });
                        proof {
                            if plain_at(old(self).tokens@, old(self).pos as int) && old(self).can_pair {
                                lemma_plain_combine(old(self).tokens@, old(self).pos as int, p1, self.pos as int, 9, 9, left0, right0, expr);
                            }
                        }
                    },
                    _ => {
                        break;
                    },
                }
            }
        }
        Ok(expr)
    }

    fn bitshift(&mut self) -> (r: Result<ExprBox<'a>, ParseError<'a>>)
        requires
            old(self).wf(),
        ensures
            r matches Err(e) ==> error_fits(e, old(self).tokens@, old(self).pos as int, final(self).pos as int),
            r matches Ok(e) ==> expr_printable(e),
            final(self).advanced(old(self)),
            r is Ok ==> old(self).pos < final(self).pos,
            old(self).newline_parsed(*final(self), r),
            r matches Ok(e) ==> (flat_tokens(e) matches Some(ts) ==> ts == old(self).tokens@.subrange(old(self).pos as int, final(self).pos as int)),
            old(self).plain_parsed(*final(self), r, 9),
            old(self).dangling_parsed(*final(self), r, 9),
            old(self).pos == old(self).tokens.len() ==> r matches Err(ParseError::UnexpectedEnd),
        decreases old(self).rest(), 7nat,
    {
        let mut expr = self.addition()?;
        if self.can_pair {
            loop
                invariant
                    self.advanced(old(self)),
                    old(self).pos < self.pos,
                    !lone_newline(old(self).tokens@, old(self).pos as int),
                    flat_tokens(expr) matches Some(ts) ==> ts == old(self).tokens@.subrange(old(self).pos as int, self.pos as int),
                    expr_printable(expr),
                    plain_at(old(self).tokens@, old(self).pos as int) && old(self).can_pair ==> (parsed_plain(old(self).tokens@, old(self).pos as int, self.pos as int, 10, expr)
                        && self.can_pair && self.check_leftovers == old(self).check_leftovers),
                    dangling_at(old(self).tokens@, old(self).pos as int) && old(self).can_pair ==> (cut_short(old(self).tokens@, old(self).pos as int, self.pos as int, 10) && self.can_pair
                        && !(expr.expr is UnidentifiedAsLiteral)),
                ensures
                    dangling_at(old(self).tokens@, old(self).pos as int) && old(self).can_pair ==> (cut_short(old(self).tokens@, old(self).pos as int, self.pos as int, 9) && self.can_pair
                        && !(expr.expr is UnidentifiedAsLiteral)),
                    plain_at(old(self).tokens@, old(self).pos as int) && old(self).can_pair ==> (parsed_plain(old(self).tokens@, old(self).pos as int, self.pos as int, 9, expr)
                        && self.can_pair && self.check_leftovers == old(self).check_leftovers),
                decreases self.rest(),
            {
                let t = match self.peek() {
                    Some(t) => t,
                    None => {
                        break;
                    },
                };
                match t.token_type {
                    TokenType::BitLeft | TokenType::BitRight => {
                        let ghost p1 = self.pos as int;
                        let token = self.consume_next();
                        proof {
                            if plain_at(old(self).tokens@, old(self).pos as int) && old(self).can_pair {
                                lemma_plain_inner(old(self).tokens@, old(self).pos as int, p1);
                                lemma_plain_start(old(self).tokens@, p1 + 1);
                            }
                        }
                        let comments_and_newlines_between_op_and_r = self.get_newlines_and_comments();
                        let right = self.addition()?;
                        proof {
                            lemma_join_tokens(old(self).tokens@, old(self).pos as int, p1, self.pos as int);
                        }
                        let ghost left0 = expr;
                        let ghost right0 = right;
                        expr = self.create_expr_box_no_comment(Expr::Binary {
                            left: expr,
                            operator: token,
                            comments_and_newlines_between_op_and_r,
                            right,
                        });
                        proof {
                            if plain_at(old(self).tokens@, old(self).pos as int) && old(self).can_pair {
                                lemma_plain_combine(old(self).tokens@, old(self).pos as int, p1, self.pos as int, 10, 10, left0, right0, expr);
                            }
                        }
                    },
                    _ => {
                        break;
                    },
                }
            }
        }
        Ok(expr)
    }

    fn addition(&mut self) -> (r: Result<ExprBox<'a>, ParseError<'a>>)
        requires
            old(self).wf(),
        ensures
            r matches Err(e) ==> error_fits(e, old(self).tokens@, old(self).pos as int, final(self).pos as int),
            r matches Ok(e) ==> expr_printable(e),
            final(self).advanced(old(self)),
            r is Ok ==> old(self).pos < final(self).pos,
            old(self).newline_parsed(*final(self), r),
            r matches Ok(e) ==> (flat_tokens(e) matches Some(ts) ==> ts == old(self).tokens@.subrange(old(self).pos as int, final(self).pos as int)),
            old(self).plain_parsed(*final(self), r, 10),
            old(self).dangling_parsed(*final(self), r, 10),
            old(self).pos == old(self).tokens.len() ==> r matches Err(ParseError::UnexpectedEnd),
        decreases old(self).rest(), 6nat,
    {
        let mut expr = self.multiplication()?;
        if self.can_pair {
            loop
                invariant
                    self.advanced(old(self)),
                    old(self).pos < self.pos,
                    !lone_newline(old(self).tokens@, old(self).pos as int),
                    flat_tokens(expr) matches Some(ts) ==> ts == old(self).tokens@.subrange(old(self).pos as int, self.pos as int),
                    expr_printable(expr),
                    plain_at(old(self).tokens@, old(self).pos as int) && old(self).can_pair ==> (parsed_plain(old(self).tokens@, old(self).pos as int, self.pos as int, 11, expr)
                        && self.can_pair && self.check_leftovers == old(self).check_leftovers),
                    dangling_at(old(self).tokens@, old(self).pos as int) && old(self).can_pair ==> (cut_short(old(self).tokens@, old(self).pos as int, self.pos as int, 11) && self.can_pair
                        && !(expr.expr is UnidentifiedAsLiteral)),
                ensures
                    dangling_at(old(self).tokens@, old(self).pos as int) && old(self).can_pair ==> (cut_short(old(self).tokens@, old(self).pos as int, self.pos as int, 10) && self.can_pair
                        && !(expr.expr is UnidentifiedAsLiteral)),
                    plain_at(old(self).tokens@, old(self).pos as int) && old(self).can_pair ==> (parsed_plain(old(self).tokens@, old(self).pos as int, self.pos as int, 10, expr)
                        && self.can_pair && self.check_leftovers == old(self).check_leftovers),
                decreases self.rest(),
            {
                let t = match self.peek() {
                    Some(t) => t,
                    None => {
                        break;
                    },
                };
                match t.token_type {
                    TokenType::Minus | TokenType::Plus => {
                        let ghost p1 = self.pos as int;
                        let token = self.consume_next();
                        proof {
                            if plain_at(old(self).tokens@, old(self).pos as int) && old(self).can_pair {
                                lemma_plain_inner(old(self).tokens@, old(self).pos as int, p1);
                                lemma_plain_start(old(self).tokens@, p1 + 1);
                            }
                        }
                        let comments_and_newlines_between_op_and_r = self.get_newlines_and_comments();
                        let right = self.multiplication()?;
                        proof {
                            lemma_join_tokens(old(self).tokens@, old(self).pos as int, p1, self.pos as int);
                        }
                        let ghost left0 = expr;
                        let ghost right0 = right;
                        expr = self.create_expr_box_no_comment(Expr::Binary {
                            left: expr,
                            operator: token,
                            comments_and_newlines_between_op_and_r,
                            right,
                        });
                        proof {
                            if plain_at(old(self).tokens@, old(self).pos as int) && old(self).can_pair {
                                lemma_plain_combine(old(self).tokens@, old(self).pos as int, p1, self.pos as int, 11, 11, left0, right0, expr);
                            }
                        }
                    },
                    _ => {
                        break;
                    },
                }
            }
        }
        Ok(expr)
    }

    fn multiplication(&mut self) -> (r: Result<ExprBox<'a>, ParseError<'a>>)
        requires
            old(self).wf(),
        ensures
            r matches Err(e) ==> error_fits(e, old(self).tokens@, old(self).pos as int, final(self).pos as int),
            r matches Ok(e) ==> expr_printable(e),
            final(self).advanced(old(self)),
            r is Ok ==> old(self).pos < final(self).pos,
            old(self).newline_parsed(*final(self), r),
            r matches Ok(e) ==> (flat_tokens(e) matches Some(ts) ==> ts == old(self).tokens@.subrange(old(self).pos as int, final(self).pos as int)),
            old(self).plain_parsed(*final(self), r, 11),
            old(self).dangling_parsed(*final(self), r, 11),
            old(self).pos == old(self).tokens.len() ==> r matches Err(ParseError::UnexpectedEnd),
        decreases old(self).rest(), 5nat,
    {
        let mut expr = self.unary()?;
        if self.can_pair {
            loop
                invariant
                    self.advanced(old(self)),
                    old(self).pos < self.pos,
                    !lone_newline(old(self).tokens@, old(self).pos as int),
                    flat_tokens(expr) matches Some(ts) ==> ts == old(self).tokens@.subrange(old(self).pos as int, self.pos as int),
                    expr_printable(expr),
                    plain_at(old(self).tokens@, old(self).pos as int) && old(self).can_pair ==> (parsed_plain(old(self).tokens@, old(self).pos as int, self.pos as int, 12, expr)
                        && self.can_pair && self.check_leftovers == old(self).check_leftovers),
                    dangling_at(old(self).tokens@, old(self).pos as int) && old(self).can_pair ==> (cut_short(old(self).tokens@, old(self).pos as int, self.pos as int, 12) && self.can_pair
                        && !(expr.expr is UnidentifiedAsLiteral)),
                ensures
                    dangling_at(old(self).tokens@, old(self).pos as int) && old(self).can_pair ==> (cut_short(old(self).tokens@, old(self).pos as int, self.pos as int, 11) && self.can_pair
                        && !(expr.expr is UnidentifiedAsLiteral)),
                    plain_at(old(self).tokens@, old(self).pos as int) && old(self).can_pair ==> (parsed_plain(old(self).tokens@, old(self).pos as int, self.pos as int, 11, expr)
                        && self.can_pair && self.check_leftovers == old(self).check_leftovers),
                decreases self.rest(),
            {
                let t = match self.peek() {
                    Some(t) => t,
                    None => {
                        break;
                    },
                };
                match t.token_type {
                    TokenType::Slash | TokenType::Star | TokenType::Mod | TokenType::ModAlias | TokenType::Div => {
                        let ghost p1 = self.pos as int;
                        let token = self.consume_next();
                        proof {
                            if plain_at(old(self).tokens@, old(self).pos as int) && old(self).can_pair {
                                lemma_plain_inner(old(self).tokens@, old(self).pos as int, p1);
                                lemma_plain_start(old(self).tokens@, p1 + 1);
                            }
                        }
                        let comments_and_newlines_between_op_and_r = self.get_newlines_and_comments();
                        let right = self.unary()?;
                        proof {
                            lemma_join_tokens(old(self).tokens@, old(self).pos as int, p1, self.pos as int);
                        }
                        let ghost left0 = expr;
                        let ghost right0 = right;
                        expr = self.create_expr_box_no_comment(Expr::Binary {
                            left: expr,
                            operator: token,
                            comments_and_newlines_between_op_and_r,
                            right,
                        });
                        proof {
                            if plain_at(old(self).tokens@, old(self).pos as int) && old(self).can_pair {
                                lemma_plain_combine(old(self).tokens@, old(self).pos as int, p1, self.pos as int, 12, 12, left0, right0, expr);
                            }
                        }
                    },
                    _ => {
                        break;
                    },
                }
            }
        }
        Ok(expr)
    }

    fn unary(&mut self) -> (r: Result<ExprBox<'a>, ParseError<'a>>)
        requires
            old(self).wf(),
        ensures
            r matches Err(e) ==> error_fits(e, old(self).tokens@, old(self).pos as int, final(self).pos as int),
            r matches Ok(e) ==> expr_printable(e),
            final(self).advanced(old(self)),
            r is Ok ==> old(self).pos < final(self).pos,
            old(self).newline_parsed(*final(self), r),
            r matches Ok(e) ==> (flat_tokens(e) matches Some(ts) ==> ts == old(self).tokens@.subrange(old(self).pos as int, final(self).pos as int)),
            old(self).plain_parsed(*final(self), r, 12),
            old(self).dangling_parsed(*final(self), r, 12),
            old(self).pos == old(self).tokens.len() ==> r matches Err(ParseError::UnexpectedEnd),
        decreases old(self).rest(), 4nat,
    {
        if self.can_pair {
            if let Some(t) = self.peek() {
                match t.token_type {
                    TokenType::Bang
                    | TokenType::Minus
                    | TokenType::Plus
                    | TokenType::Tilde
                    | TokenType::NotAlias
                    | TokenType::Incrementer
                    | TokenType::Decrementer => {
                        let t = self.consume_next();
                        let comments_and_newlines_between = self.get_newlines_and_comments();
                        let right = self.unary()?;
                        return Ok(self.create_expr_box_no_comment(Expr::Unary {
                            operator: t,
                            comments_and_newlines_between,
                            right,
                        }));
                    },
                    _ => {},
                }
            }
        }
        self.postfix()
    }

    fn postfix(&mut self) -> (r: Result<ExprBox<'a>, ParseError<'a>>)
        requires
            old(self).wf(),
        ensures
            r matches Err(e) ==> error_fits(e, old(self).tokens@, old(self).pos as int, final(self).pos as int),
            r matches Ok(e) ==> expr_printable(e),
            final(self).advanced(old(self)),
            r is Ok ==> old(self).pos < final(self).pos,
            old(self).newline_parsed(*final(self), r),
            r matches Ok(e) ==> (flat_tokens(e) matches Some(ts) ==> ts == old(self).tokens@.subrange(old(self).pos as int, final(self).pos as int)),
            old(self).plain_parsed(*final(self), r, 12),
            old(self).dangling_parsed(*final(self), r, 12),
            old(self).pos == old(self).tokens.len() ==> r matches Err(ParseError::UnexpectedEnd),
            old(self).can_pair && operand_then_step(old(self).tokens@, old(self).pos as int) ==> {
                &&& r matches Ok(e) && (e.expr matches Expr::Postfix { operator, comments_and_newlines_between, expr: inner }
                    && operator == old(self).tokens@[old(self).pos + 1] && literal_of(inner.expr, old(self).tokens@[old(self).pos as int], None)
                    && inner.trailing_comments is None && comments_view(comments_and_newlines_between) == trivia_run(old(self).tokens@, old(self).pos + 2))
                &&& final(self).pos == trivia_end(old(self).tokens@, old(self).pos + 2)
            },
        decreases old(self).rest(), 3nat,
    {
        let mut expr = self.call()?;
        if self.check_next_either(TokenType::Incrementer, TokenType::Decrementer) {
            let t = self.consume_next();
            let comments_and_newlines_between = self.get_newlines_and_comments();
            expr = self.create_expr_box_no_comment(Expr::Postfix { operator: t, comments_and_newlines_between, expr });
        }
        Ok(expr)
    }

    fn call(&mut self) -> (r: Result<ExprBox<'a>, ParseError<'a>>)
        requires
            old(self).wf(),
        ensures
            r matches Err(e) ==> error_fits(e, old(self).tokens@, old(self).pos as int, final(self).pos as int),
            r matches Ok(e) ==> expr_printable(e),
            final(self).advanced(old(self)),
            r is Ok ==> old(self).pos < final(self).pos,
            old(self).newline_parsed(*final(self), r),
            r matches Ok(e) ==> (flat_tokens(e) matches Some(ts) ==> ts == old(self).tokens@.subrange(old(self).pos as int, final(self).pos as int)),
            old(self).plain_parsed(*final(self), r, 12),
            old(self).dangling_parsed(*final(self), r, 12),
            old(self).pos == old(self).tokens.len() ==> r matches Err(ParseError::UnexpectedEnd),
            old(self).can_pair && operand_then_step(old(self).tokens@, old(self).pos as int) ==> {
                &&& r matches Ok(e) && literal_of(e.expr, old(self).tokens@[old(self).pos as int], None)
                    && e.trailing_comments is None
                &&& final(self).pos == old(self).pos + 1
                &&& final(self).can_pair
            },
        decreases old(self).rest(), 2nat,
    {
        let mut expression = self.primary()?;
        proof {
            if old(self).can_pair && operand_then_step(old(self).tokens@, old(self).pos as int) {
                assert(!is_trivia(old(self).tokens@[old(self).pos + 1].token_type));
                assert(trivia_end(old(self).tokens@, old(self).pos + 1) == old(self).pos + 1);
            }
        }
        if self.check_next_consume(TokenType::LeftParen) {
            let comments_and_newlines_after_lparen = self.get_newlines_and_comments();
            let arguments = self.finish_call(TokenType::RightParen, TokenType::Comma)?;
            expression = self.create_comment_expr_box(Expr::Call {
                procedure_name: expression,
                arguments,
                comments_and_newlines_after_lparen,
            });
        }
        loop
            invariant
                self.advanced(old(self)),
                old(self).pos < self.pos,
                expr_printable(expression),
                flat_tokens(expression) matches Some(ts) ==> ts == old(self).tokens@.subrange(old(self).pos as int, self.pos as int),
                lone_newline(old(self).tokens@, old(self).pos as int) ==> {
                    &&& self.pos == old(self).pos + 1
                    &&& expression.expr is Newline && expression.trailing_comments is None
                    &&& !self.can_pair
                    &&& self.check_leftovers == old(self).check_leftovers
                },
                plain_at(old(self).tokens@, old(self).pos as int) && old(self).can_pair ==> (parsed_plain(old(self).tokens@, old(self).pos as int, self.pos as int, 12, expression)
                    && self.can_pair && self.check_leftovers == old(self).check_leftovers),
                dangling_at(old(self).tokens@, old(self).pos as int) && old(self).can_pair ==> (cut_short(old(self).tokens@, old(self).pos as int, self.pos as int, 12) && self.can_pair
                        && !(expression.expr is UnidentifiedAsLiteral)),
                old(self).can_pair && operand_then_step(old(self).tokens@, old(self).pos as int) ==> (self.pos == old(self).pos + 1 && literal_of(expression.expr, old(self).tokens@[old(self).pos as int], None)
                    && expression.trailing_comments is None && self.can_pair),
            decreases self.rest(),
        {
            let token = match self.peek() {
                Some(token) => token,
                None => {
                    break;
                },
            };
            match token.token_type {
                TokenType::Dot => {
                    self.consume_next();
                    let comments_between = self.get_newlines_and_comments();
                    let instance_variable = self.call()?;
                    let ghost object_name = expression;
                    expression = self.create_comment_expr_box(Expr::DotAccess {
                        object_name: expression,
                        comments_between,
                        instance_variable,
                    });
                    assert(expr_printable(object_name) && expr_printable(instance_variable));
                },
                TokenType::LeftBracket
                | TokenType::ArrayIndexer
                | TokenType::MapIndexer
                | TokenType::ListIndexer
                | TokenType::GridIndexer => {
                    let ghost round_start = self.pos;
                    let access_type = self.consume_next();
                    let mut access_exprs: Vec<(CommentsAndNewlines<'a>, ExprBox<'a>)> = vec![];
                    loop
                        invariant
                            self.advanced(old(self)),
                            old(self).pos < self.pos,
                            round_start < self.pos,
                            !lone_newline(old(self).tokens@, old(self).pos as int),
                            !(plain_at(old(self).tokens@, old(self).pos as int) && old(self).can_pair),
                            !(old(self).can_pair && operand_then_step(old(self).tokens@, old(self).pos as int)),
                            !(dangling_at(old(self).tokens@, old(self).pos as int) && old(self).can_pair),
                            expr_printable(expression),
                            token_printable(access_type),
                            forall|i: int|
                                0 <= i < access_exprs@.len() ==> run_printable(#[trigger] access_exprs@[i].0)
                                    && expr_printable(access_exprs@[i].1),
                        decreases self.rest(),
                    {
                        match self.peek() {
                            Some(token) => {
                                if let TokenType::RightBracket = token.token_type {
                                    break;
                                }
                            },
                            None => {
                                break;
                            },
                        }
                        let comments = self.get_newlines_and_comments();
                        let access = self.expression()?;
                        access_exprs.push((comments, access));
                        if self.check_next_consume(TokenType::Comma) == false {
                            break;
                        }
                    }
                    self.check_next_consume(TokenType::RightBracket);
                    let ghost ds_name = expression;
                    let ghost accesses = access_exprs@;
                    expression = self.create_comment_expr_box(Expr::DataStructureAccess {
                        ds_name: expression,
                        access_type,
                        access_exprs,
                    });
                    assert(expr_printable(ds_name) && token_printable(access_type));
                    assert(expression.expr matches Expr::DataStructureAccess { access_exprs: es, .. } && es@ == accesses);
                    assert(expr_printable(expression));
                },
                _ => {
                    break;
                },
            }
        }
        Ok(expression)
    }

    fn primary(&mut self) -> (r: Result<ExprBox<'a>, ParseError<'a>>)
        requires
            old(self).wf(),
        ensures
            r matches Ok(e) ==> expr_printable(e),
            final(self).advanced(old(self)),
            r is Ok ==> old(self).pos < final(self).pos,
            old(self).pos == old(self).tokens.len() ==> r matches Err(ParseError::UnexpectedEnd),
            r matches Err(e) ==> error_fits(e, old(self).tokens@, old(self).pos as int, final(self).pos as int),
            old(self).pos < old(self).tokens.len() ==> {
                let toks = old(self).tokens@;
                let p = old(self).pos as int;
                let t = toks[p];
                &&& (t.token_type is Number || t.token_type is String || t.token_type is NumberStartDot
                    || t.token_type is NumberEndDot || t.token_type is Identifier) ==> {
                    &&& r matches Ok(e) && literal_of(e.expr, t, trivia_run(toks, p + 1))
                        && e.trailing_comments is None
                    &&& final(self).pos == trivia_end(toks, p + 1)
                    &&& final(self).can_pair == old(self).can_pair
                }
                &&& t.token_type is Newline ==> (r matches Ok(e) && e.expr is Newline && e.trailing_comments is None
                    && final(self).pos == p + 1 && !final(self).can_pair)
                &&& t.token_type is Comment ==> (r matches Ok(e) && e.expr == (Expr::Comment { comment: t })
                    && e.trailing_comments is None && final(self).pos == p + 1 && !final(self).can_pair)
                &&& t.token_type is MultilineComment ==> (r matches Ok(e) && e.expr == (Expr::MultilineComment {
                    multiline_comment: t,
                }) && e.trailing_comments is None && final(self).pos == p + 1 && !final(self).can_pair)
                &&& t.token_type is LeftParen ==> (r matches Ok(e) ==> e.expr is Grouping)
                &&& t.token_type is LeftBracket ==> (r matches Ok(e) ==> e.expr is ArrayLiteral)
                &&& stands_for_itself(t.token_type) && old(self).allow_unidentified ==> {
                    &&& r matches Ok(e) && e.expr == (Expr::UnidentifiedAsLiteral { literal_token: t })
                        && comments_view(e.trailing_comments) == trivia_run(toks, p + 1)
                    &&& final(self).pos == trivia_end(toks, p + 1)
                }
                &&& stands_for_itself(t.token_type) && !old(self).allow_unidentified ==> (r == Err::<ExprBox<'a>, ParseError<'a>>(ParseError::UnexpectedToken(t))
                    && final(self).pos == p + 1)
            },
            old(self).newline_parsed(*final(self), r),
            r matches Ok(e) ==> (flat_tokens(e) matches Some(ts) ==> ts == old(self).tokens@.subrange(old(self).pos as int, final(self).pos as int)),
            old(self).plain_parsed(*final(self), r, 12),
            old(self).dangling_parsed(*final(self), r, 12),
        decreases old(self).rest(), 1nat,
    {
        if let Some(t) = self.peek() {
            let output = match t.token_type {
                TokenType::Number(_) | TokenType::String(_) => {
                    let t = self.consume_next();
                    let comments = self.get_newlines_and_comments();
                    self.create_expr_box_no_comment(Expr::Literal { literal_token: t, comments })
                },
                TokenType::NumberStartDot(_) => {
                    let t = self.consume_next();
                    let comments = self.get_newlines_and_comments();
                    self.create_expr_box_no_comment(Expr::NumberStartDot { literal_token: t, comments })
                },
                TokenType::NumberEndDot(_) => {
                    let t = self.consume_next();
                    let comments = self.get_newlines_and_comments();
                    self.create_expr_box_no_comment(Expr::NumberEndDot { literal_token: t, comments })
                },
                TokenType::Identifier(_) => {
                    let t = self.consume_next();
                    let comments = self.get_newlines_and_comments();
                    self.create_expr_box_no_comment(Expr::Identifier { name: t, comments })
                },
                TokenType::LeftParen => {
                    self.consume_next();
                    let comments_and_newlines_after_lparen = self.get_newlines_and_comments();
                    let mut expressions: Vec<ExprBox<'a>> = vec![];
                    expressions.push(self.expression()?);
                    loop
                        invariant
                            self.advanced(old(self)),
                            old(self).pos < self.pos,
                            old(self).pos < old(self).tokens.len(),
                            old(self).tokens@[old(self).pos as int].token_type is LeftParen,
                            forall|i: int| 0 <= i < expressions@.len() ==> expr_printable(#[trigger] expressions@[i]),
                        decreases self.rest(),
                    {
                        if self.check_next_consume(TokenType::RightParen) {
                            break;
                        }
                        expressions.push(self.expression()?);
                    }
                    let comments_and_newlines_after_rparen = self.get_newlines_and_comments();
                    self.create_expr_box_no_comment(Expr::Grouping {
                        expressions,
                        comments_and_newlines_after_lparen,
                        comments_and_newlines_after_rparen,
                    })
                },
                TokenType::LeftBracket => {
                    self.consume_next();
                    let comments_and_newlines_after_lbracket = self.get_newlines_and_comments();
                    let arguments = self.finish_call(TokenType::RightBracket, TokenType::Comma)?;
                    self.create_expr_box_no_comment(Expr::ArrayLiteral { comments_and_newlines_after_lbracket, arguments })
                },
                TokenType::Newline(_) => {
                    self.consume_next();
                    self.can_pair = false;
                    self.create_expr_box_no_comment(Expr::Newline)
                },
                TokenType::Comment(_) => {
                    let comment = self.consume_next();
                    self.can_pair = false;
                    self.create_expr_box_no_comment(Expr::Comment { comment })
                },
                TokenType::MultilineComment(_) => {
                    let multiline_comment = self.consume_next();
                    self.can_pair = false;
                    self.create_expr_box_no_comment(Expr::MultilineComment { multiline_comment })
                },
                _ => {
                    let literal_token = self.consume_next();
                    if self.allow_unidentified == false {
                        return Err(ParseError::UnexpectedToken(literal_token));
                    }
                    self.create_comment_expr_box(Expr::UnidentifiedAsLiteral { literal_token })
                },
            };
            proof {
                if plain_at(old(self).tokens@, old(self).pos as int) {
                    lemma_plain_start(old(self).tokens@, old(self).pos as int);
                }
                if dangling_at(old(self).tokens@, old(self).pos as int) {
                    lemma_dangling_start(old(self).tokens@, old(self).pos as int);
                }
            }
            return Ok(output);
        }
        Err(ParseError::UnexpectedEnd)
    }

    fn finish_call(&mut self, end_token_type: TokenType<'a>, delimiter_type: TokenType<'a>) -> (r: Result<DelimitedLines<'a, ExprBox<'a>>, ParseError<'a>>)
        requires
            old(self).wf(),
        ensures
            r matches Err(e) ==> error_fits(e, old(self).tokens@, old(self).pos as int, final(self).pos as int),
            r matches Ok(d) ==> lines_printable(d),
            final(self).advanced(old(self)),
        decreases old(self).rest(), 17nat,
    {
        let mut arguments: Vec<DelimitedLine<'a, ExprBox<'a>>> = Vec::new();
        let mut end_delimiter = true;
        let mut done = self.check_next(end_token_type);
        while !done
            invariant
                self.advanced(old(self)),
                forall|i: int|
                    0 <= i < arguments@.len() ==> expr_printable(#[trigger] arguments@[i].expr) && run_printable(
                        arguments@[i].trailing_comment,
                    ),
            decreases self.rest(), if done { 0int } else { 1int },
        {
            if self.check_next(end_token_type) {
                end_delimiter = true;
                done = true;
            } else {
                let expr = self.expression()?;
                let do_break = self.check_next_consume(delimiter_type) == false;
                let trailing_comment = self.get_newlines_and_comments();
                let ghost before = arguments@;
                arguments.push(DelimitedLine { expr, trailing_comment });
                proof {
                    assert forall|i: int| 0 <= i < arguments@.len() implies expr_printable(
                        #[trigger] arguments@[i].expr,
                    ) && run_printable(arguments@[i].trailing_comment) by {
                        if i < before.len() {
                            assert(arguments@[i] == before[i]);
                        }
                    }
                }
                if do_break {
                    end_delimiter = false;
                    done = true;
                }
            }
        }
        self.check_next_consume(end_token_type);
        Ok(DelimitedLines { lines: arguments, has_end_delimiter: end_delimiter })
    }

    /// `expr` with the newlines and comments that come next.
    fn create_comment_expr_box(&mut self, expr: Expr<'a>) -> (r: ExprBox<'a>)
        requires
            old(self).wf(),
        ensures
            run_printable(r.trailing_comments),
            final(self).advanced(old(self)),
            final(self).pos == trivia_end(old(self).tokens@, old(self).pos as int),
            r.expr == expr,
            comments_view(r.trailing_comments) == trivia_run(old(self).tokens@, old(self).pos as int),
            final(self).moved_from(old(self)),
    {
        let trailing_comments = self.get_newlines_and_comments();
        Box::new(ExprBoxInterior { expr, trailing_comments })
    }

    /// `expr` with no comments after it.
    fn create_expr_box_no_comment(&self, expr: Expr<'a>) -> (r: ExprBox<'a>)
        ensures
            r.expr == expr,
            r.trailing_comments is None,
    {
        Box::new(ExprBoxInterior { expr, trailing_comments: None })
    }
}

} // verus!
