use crate::expressions::{CommentsAndNewlines, Expr, ExprBox};
use crate::lang_config::LangConfig;
use crate::lex_token::{reveal_token_names, Token, TokenType};
use crate::statements::{CaseType, DelimitedLine, DelimitedLines, Statement, StatementWrapper, StmtBox, VariableDecl};
use vstd::prelude::*;

verus! {

pub const SPACE: &'static str = " ";
pub const TAB: &'static str = "\t";
pub const NEWLINE: &'static str = "\n";
pub const LPAREN: &'static str = "(";
pub const RPAREN: &'static str = ")";
pub const LBRACE: &'static str = "{";
pub const RBRACE: &'static str = "}";
pub const COMMA: &'static str = ",";
pub const SEMICOLON: &'static str = ";";

/// The characters of `s`, in order.
pub(crate) fn text_chars(s: &str) -> (r: Vec<char>)
    ensures
        r@ == s@,
{
    let mut v: Vec<char> = Vec::new();
    for c in it: s.chars()
        invariant
            v@ == it.seq().take(it.index() as int),
    {
        v.push(c);
    }
    proof {
        assert(v@ == s@);
    }
    v
}

/// Whether two texts hold the same characters.
pub(crate) fn str_eq(a: &str, b: &str) -> (r: bool)
    ensures
        r == (a@ == b@),
{
    let x = text_chars(a);
    let y = text_chars(b);
    if x.len() != y.len() {
        return false;
    }
    let mut i: usize = 0;
    while i < x.len()
        invariant
            x@ == a@,
            y@ == b@,
            x.len() == y.len(),
            i <= x.len(),
            forall|j: int| 0 <= j < i ==> x@[j] == y@[j],
        decreases x.len() - i,
    {
        if x[i] != y[i] {
            assert(a@[i as int] != b@[i as int]);
            return false;
        }
        i = i + 1;
    }
    assert(x@ =~= y@);
    true
}

pub open spec fn space_text() -> Seq<char> {
    seq![' ']
}

pub open spec fn tab_text() -> Seq<char> {
    seq!['\t']
}

pub open spec fn newline_text() -> Seq<char> {
    seq!['\n']
}

/// Makes the characters of the printer's fixed pieces known.
proof fn reveal_pieces()
    ensures
        SPACE@ == space_text(),
        TAB@ == tab_text(),
        NEWLINE@ == newline_text(),
        LPAREN@ == seq!['('],
        RPAREN@ == seq![')'],
        LBRACE@ == seq!['{'],
        RBRACE@ == seq!['}'],
        COMMA@ == seq![','],
        SEMICOLON@ == seq![';'],
{
    reveal_strlit(" ");
    reveal_strlit("\t");
    reveal_strlit("\n");
    reveal_strlit("(");
    reveal_strlit(")");
    reveal_strlit("{");
    reveal_strlit("}");
    reveal_strlit(",");
    reveal_strlit(";");
}

/// A token whose printed text is not a lone newline.
pub open spec fn token_printable(t: Token) -> bool {
    t.token_type.spec_name() != newline_text()
}

/// A run of newlines and comments whose other tokens do not print as a lone newline.
pub open spec fn run_printable(c: CommentsAndNewlines) -> bool {
    match c {
        None => true,
        Some(v) => forall|i: int|
            0 <= i < v@.len() ==> (#[trigger] v@[i]).token_type is Newline || token_printable(v@[i]),
    }
}

/// Every token of the expression that is printed as it is, and is not in a
/// run of newlines and comments, does not print as a lone newline.
pub open spec fn expr_printable(e: ExprBox) -> bool
    decreases e,
{
    &&& run_printable(e.trailing_comments)
    &&& match e.expr {
        Expr::Call { procedure_name, comments_and_newlines_after_lparen, arguments } => {
            &&& expr_printable(procedure_name)
            &&& run_printable(comments_and_newlines_after_lparen)
            &&& lines_printable(arguments)
        },
        Expr::Function { comments_after_control_word, call, comments_after_rparen, .. } => {
            &&& run_printable(comments_after_control_word)
            &&& expr_printable(call)
            &&& run_printable(comments_after_rparen)
        },
        Expr::StructOperator { token, comments_before_expression, expression } => {
            &&& token_printable(token)
            &&& run_printable(comments_before_expression)
            &&& expr_printable(expression)
        },
        Expr::Binary { left, operator, comments_and_newlines_between_op_and_r, right } => {
            &&& expr_printable(left)
            &&& token_printable(operator)
            &&& run_printable(comments_and_newlines_between_op_and_r)
            &&& expr_printable(right)
        },
        Expr::Grouping { expressions, comments_and_newlines_after_lparen, comments_and_newlines_after_rparen } => {
            &&& run_printable(comments_and_newlines_after_lparen)
            &&& run_printable(comments_and_newlines_after_rparen)
            &&& forall|i: int| 0 <= i < expressions@.len() ==> expr_printable(#[trigger] expressions@[i])
        },
        Expr::ArrayLiteral { comments_and_newlines_after_lbracket, arguments } => {
            &&& run_printable(comments_and_newlines_after_lbracket)
            &&& lines_printable(arguments)
        },
        Expr::Literal { literal_token, comments } => token_printable(literal_token) && run_printable(comments),
        Expr::NumberStartDot { literal_token, comments } => token_printable(literal_token) && run_printable(
            comments,
        ),
        Expr::NumberEndDot { literal_token, comments } => token_printable(literal_token) && run_printable(comments),
        Expr::Unary { operator, comments_and_newlines_between, right } => {
            &&& token_printable(operator)
            &&& run_printable(comments_and_newlines_between)
            &&& expr_printable(right)
        },
        Expr::Postfix { operator, comments_and_newlines_between, expr } => {
            &&& token_printable(operator)
            &&& run_printable(comments_and_newlines_between)
            &&& expr_printable(expr)
        },
        Expr::Assign { left, operator, comments_and_newlines_between_op_and_r, right } => {
            &&& expr_printable(left)
            &&& token_printable(operator)
            &&& run_printable(comments_and_newlines_between_op_and_r)
            &&& expr_printable(right)
        },
        Expr::Identifier { name, comments } => token_printable(name) && run_printable(comments),
        Expr::DotAccess { object_name, comments_between, instance_variable } => {
            &&& expr_printable(object_name)
            &&& run_printable(comments_between)
            &&& expr_printable(instance_variable)
        },
        Expr::DataStructureAccess { ds_name, access_type, access_exprs } => {
            &&& expr_printable(ds_name)
            &&& token_printable(access_type)
            &&& forall|i: int|
                0 <= i < access_exprs@.len() ==> run_printable(#[trigger] access_exprs@[i].0) && expr_printable(
                    access_exprs@[i].1,
                )
        },
        Expr::Ternary {
            conditional,
            comments_and_newlines_after_q,
            left,
            comments_and_newlines_after_colon,
            right,
        } => {
            &&& expr_printable(conditional)
            &&& run_printable(comments_and_newlines_after_q)
            &&& expr_printable(left)
            &&& run_printable(comments_and_newlines_after_colon)
            &&& expr_printable(right)
        },
        Expr::Newline => true,
        Expr::Comment { comment } => token_printable(comment),
        Expr::MultilineComment { multiline_comment } => token_printable(multiline_comment),
        Expr::UnidentifiedAsLiteral { literal_token } => token_printable(literal_token),
    }
}

/// Every item of the lines, and the runs after them, are printable.
pub open spec fn lines_printable(d: DelimitedLines<ExprBox>) -> bool
    decreases d,
{
    forall|i: int|
        0 <= i < d.lines@.len() ==> expr_printable(#[trigger] d.lines@[i].expr) && run_printable(
            d.lines@[i].trailing_comment,
        )
}

/// The declared variable's expression, its `var` word and the run after it are printable.
pub open spec fn var_decl_printable(v: VariableDecl) -> bool {
    &&& expr_printable(v.var_expr)
    &&& (v.say_var matches Some(t) ==> token_printable(t))
    &&& (v.say_var_comments matches Some(c) ==> run_printable(c))
}

/// What comes before the opening brace of an `if`, `while`, `with` or `repeat`
/// whose body is a block, where no comment follows the keyword and the condition
/// is flat and ends in a word: the keyword, a space and the condition (which
/// ends in a space).
pub open spec fn header_pieces(s: StatementWrapper) -> Option<Seq<Seq<char>>> {
    match s.statement {
        Statement::If { comments_after_control_word, condition, then_branch, .. } => {
            if comments_after_control_word is None && then_branch.statement is Block {
                match flat_pieces(condition) {
                    Some(p) => if !is_ws_piece(p[p.len() - 2]) {
                        Some(seq!["if"@, space_text()] + p)
                    } else {
                        None
                    },
                    None => None,
                }
            } else {
                None
            }
        },
        Statement::WhileWithRepeat { token, condition, body, comments_after_control_word } => {
            if comments_after_control_word is None && body.statement is Block {
                match flat_pieces(condition) {
                    Some(p) => if !is_ws_piece(p[p.len() - 2]) {
                        Some(seq![token.token_type.spec_name(), space_text()] + p)
                    } else {
                        None
                    },
                    None => None,
                }
            } else {
                None
            }
        },
        _ => None,
    }
}

/// Output whose last two pieces are a word and a space is not on a line of
/// whitespace alone.
proof fn lemma_after_word_not_blank(out: Seq<&str>, before: Seq<Seq<char>>, p: Seq<Seq<char>>)
    requires
        texts(out) == before + p,
        p.len() >= 2,
        p.last() == space_text(),
        !is_ws_piece(p[p.len() - 2]),
    ensures
        !spec_on_whitespace_line(out),
{
    reveal_pieces();
    reveal_with_fuel(whitespace_back_to_newline, 2);
    let n = out.len();
    assert(texts(out).len() == n);
    assert(texts(out)[n - 1] == out[n - 1]@);
    assert(texts(out)[n - 2] == out[n - 2]@);
    assert(out[n - 1]@ == space_text());
    assert(out[n - 2]@ == p[p.len() - 2]);
}

/// No switch statement or enum declaration stands anywhere in the statement
/// (printing those takes back the line that their last part ends on).
pub open spec fn no_switch_or_enum(s: StatementWrapper) -> bool
    decreases s,
{
    match s.statement {
        Statement::Switch { .. } => false,
        Statement::EnumDeclaration { .. } => false,
        Statement::Block { statements, .. } => forall|i: int|
            0 <= i < statements@.len() ==> no_switch_or_enum(*#[trigger] statements@[i]),
        Statement::If { then_branch, else_branch, .. } => {
            &&& no_switch_or_enum(*then_branch)
            &&& (else_branch matches Some(e) ==> no_switch_or_enum(*e))
        },
        Statement::WhileWithRepeat { body, .. } => no_switch_or_enum(*body),
        Statement::DoUntil { body, .. } => no_switch_or_enum(*body),
        Statement::For { initializer, body, .. } => {
            &&& (initializer matches Some(init) ==> no_switch_or_enum(*init))
            &&& no_switch_or_enum(*body)
        },
        Statement::Define { body, .. } => forall|i: int| 0 <= i < body@.len() ==> no_switch_or_enum(*#[trigger] body@[i]),
        _ => true,
    }
}

/// Every token of the statement that is printed as it is, and is not in a
/// run of newlines and comments, does not print as a lone newline.
pub open spec fn stmt_printable(s: StatementWrapper) -> bool
    decreases s,
{
    match s.statement {
        Statement::VariableDeclList { starting_var_type, comments_after_control_word, var_decl } => {
            &&& token_printable(starting_var_type)
            &&& run_printable(comments_after_control_word)
            &&& forall|i: int|
                0 <= i < var_decl.lines@.len() ==> var_decl_printable(#[trigger] var_decl.lines@[i].expr)
                    && run_printable(var_decl.lines@[i].trailing_comment)
        },
        Statement::EnumDeclaration { comments_after_control_word, name, comments_after_lbrace, members } => {
            &&& run_printable(comments_after_control_word)
            &&& expr_printable(name)
            &&& run_printable(comments_after_lbrace)
            &&& lines_printable(members)
        },
        Statement::ExpresssionStatement { expression } => expr_printable(expression),
        Statement::Block { comments_after_lbrace, statements } => {
            &&& run_printable(comments_after_lbrace)
            &&& forall|i: int| 0 <= i < statements@.len() ==> stmt_printable(*#[trigger] statements@[i])
        },
        Statement::If { comments_after_control_word, condition, then_branch, comments_between, else_branch } => {
            &&& run_printable(comments_after_control_word)
            &&& expr_printable(condition)
            &&& stmt_printable(*then_branch)
            &&& run_printable(comments_between)
            &&& (else_branch matches Some(e) ==> stmt_printable(*e))
        },
        Statement::WhileWithRepeat { token, condition, body, comments_after_control_word } => {
            &&& token_printable(token)
            &&& expr_printable(condition)
            &&& stmt_printable(*body)
            &&& run_printable(comments_after_control_word)
        },
        Statement::DoUntil { comments_after_control_word, body, comments_between, condition } => {
            &&& run_printable(comments_after_control_word)
            &&& stmt_printable(*body)
            &&& run_printable(comments_between)
            &&& expr_printable(condition)
        },
        Statement::For {
            comments_after_control_word,
            comments_after_lparen,
            initializer,
            comments_after_initializer,
            condition,
            comments_after_condition,
            increment,
            comments_after_increment,
            comments_after_rparen,
            body,
        } => {
            &&& run_printable(comments_after_control_word)
            &&& run_printable(comments_after_lparen)
            &&& (initializer matches Some(init) ==> stmt_printable(*init))
            &&& run_printable(comments_after_initializer)
            &&& (condition matches Some(c) ==> expr_printable(c))
            &&& run_printable(comments_after_condition)
            &&& (increment matches Some(inc) ==> expr_printable(inc))
            &&& run_printable(comments_after_increment)
            &&& run_printable(comments_after_rparen)
            &&& stmt_printable(*body)
        },
        Statement::Return { expression } => expression matches Some(e) ==> expr_printable(e),
        Statement::Break => true,
        Statement::Exit => true,
        Statement::Switch { comments_after_control_word, condition, comments_after_lbrace, cases } => {
            &&& run_printable(comments_after_control_word)
            &&& expr_printable(condition)
            &&& run_printable(comments_after_lbrace)
            &&& forall|i: int|
                0 <= i < cases@.len() ==> {
                    &&& (#[trigger] cases@[i].control_word matches CaseType::Case(e) ==> expr_printable(e))
                    &&& run_printable(cases@[i].comments_after_control_word)
                    &&& run_printable(cases@[i].comments_after_colon)
                    &&& forall|j: int|
                        0 <= j < cases@[i].statements@.len() ==> stmt_printable(*#[trigger] cases@[i].statements@[j])
                }
        },
        Statement::Comment { comment } => token_printable(comment),
        Statement::MultilineComment { multiline_comment } => token_printable(multiline_comment),
        Statement::RegionBegin(t) => token_printable(t),
        Statement::RegionEnd(t) => token_printable(t),
        Statement::Macro(t) => token_printable(t),
        Statement::Define { comments_after_control_word, script_name, body } => {
            &&& run_printable(comments_after_control_word)
            &&& expr_printable(script_name)
            &&& forall|i: int| 0 <= i < body@.len() ==> stmt_printable(*#[trigger] body@[i])
        },
    }
}

/// The word of an identifier or a literal that has no newlines or comments
/// around it; none for any other expression.
pub open spec fn simple_word(e: ExprBox) -> Option<Seq<char>> {
    if e.trailing_comments is None {
        match e.expr {
            Expr::Identifier { name, comments } => if comments is None {
                Some(name.token_type.spec_name())
            } else {
                None
            },
            Expr::Literal { literal_token, comments } => if comments is None {
                Some(literal_token.token_type.spec_name())
            } else {
                None
            },
            _ => None,
        }
    } else {
        None
    }
}

/// What the arguments of a call print between its parentheses, when each is a
/// single word: the words with a comma and a space between them, and a comma
/// after the last one when the source has it there.
pub open spec fn call_args_pieces(args: DelimitedLines<ExprBox>) -> Seq<Seq<char>> {
    let all = words_with_delimiters(args.lines@, COMMA@);
    if args.lines@.len() == 0 {
        all
    } else if args.has_end_delimiter {
        all.drop_last()
    } else {
        all.subrange(0, all.len() - 2)
    }
}

/// What an array literal of plain elements, with no comments after its opening
/// bracket, prints: the bracket, each element followed by a comma and a space
/// (the last one's comma and space only where the source ends the list with a
/// comma), and the closing bracket.
pub open spec fn array_pieces(e: ExprBox) -> Option<Seq<Seq<char>>> {
    match e.expr {
        Expr::ArrayLiteral { comments_and_newlines_after_lbracket, arguments } => {
            if comments_and_newlines_after_lbracket is None && plain_lines(arguments.lines@) {
                let all = words_with_delimiters(arguments.lines@, COMMA@);
                Some(seq!["["@] + (if arguments.has_end_delimiter || arguments.lines@.len() == 0 {
                    all
                } else {
                    all.subrange(0, all.len() - 2)
                }) + seq!["]"@])
            } else {
                None
            }
        },
        _ => None,
    }
}

/// Commas and parentheses are no whitespace pieces.
proof fn lemma_punctuation_not_ws()
    ensures
        !is_ws_piece(COMMA@),
        !is_ws_piece(LPAREN@),
        !is_ws_piece(RPAREN@),
        !is_ws_piece(LBRACE@),
{
    reveal_pieces();
    assert(seq!['{'][0] != space_text()[0] && seq!['{'][0] != tab_text()[0] && seq!['{'][0] != newline_text()[0]);
    assert(seq![','][0] != space_text()[0] && seq![','][0] != tab_text()[0] && seq![','][0] != newline_text()[0]);
    assert(seq!['('][0] != space_text()[0] && seq!['('][0] != tab_text()[0] && seq!['('][0] != newline_text()[0]);
    assert(seq![')'][0] != space_text()[0] && seq![')'][0] != tab_text()[0] && seq![')'][0] != newline_text()[0]);
}

/// What printing the arguments leaves before the trailing whitespace is taken back.
pub open spec fn call_args_printed(args: DelimitedLines<ExprBox>) -> Seq<Seq<char>> {
    let all = words_with_delimiters(args.lines@, COMMA@);
    if args.has_end_delimiter || args.lines@.len() == 0 {
        all
    } else {
        all.subrange(0, all.len() - 2)
    }
}

/// After the arguments of a call, taking back the trailing whitespace leaves
/// what `call_args_pieces` says.
proof fn lemma_call_args_trim(p2: Seq<Seq<char>>, args: DelimitedLines<ExprBox>, out: Seq<&str>)
    requires
        p2.len() >= 1,
        !is_ws_piece(p2.last()),
        plain_lines(args.lines@),
        texts(out) == p2 + call_args_printed(args),
    ensures
        out.len() > 0,
        texts(out.subrange(0, last_non_ws_at_or_before(out, out.len() - 1) + 1)) == p2 + call_args_pieces(args),
{
    reveal_pieces();
    lemma_punctuation_not_ws();
    let ls = args.lines@;
    let all = words_with_delimiters(ls, COMMA@);
    lemma_words_with_delimiters_len(ls, COMMA@);
    let l = out.len() as int;
    assert(texts(out).len() == l);
    let keep = last_non_ws_at_or_before(out, l - 1) + 1;
    if ls.len() == 0 {
        assert(out[l - 1]@ == texts(out)[l - 1]);
        assert(keep == l);
        assert(out.subrange(0, keep) == out);
    } else {
        let n = ls.len();
        let w = simple_word(ls.last().expr)->0;
        assert(all == words_with_delimiters(ls.drop_last(), COMMA@) + seq![w, COMMA@, space_text()]);
        assert(simple_word(ls[n - 1].expr) matches Some(x) && !is_ws_piece(x));
        assert(COMMA@ == seq![',']);
        assert(!is_ws_piece(COMMA@));
        if args.has_end_delimiter {
            assert(out[l - 1]@ == texts(out)[l - 1]);
            assert(out[l - 2]@ == texts(out)[l - 2]);
            assert(texts(out)[l - 1] == all[3 * n - 1]);
            assert(texts(out)[l - 2] == all[3 * n - 2]);
            assert(l >= 4);
            assert(last_non_ws_at_or_before(out, l - 1) == last_non_ws_at_or_before(out, l - 2));
            assert(keep == l - 1);
            assert forall|k: int| 0 <= k < keep implies #[trigger] texts(out.subrange(0, keep))[k] == (p2
                + all.drop_last())[k] by {
                assert(texts(out.subrange(0, keep))[k] == out[k]@);
                assert(texts(out)[k] == out[k]@);
                assert((p2 + all)[k] == (p2 + all.drop_last())[k]);
            }
            assert(texts(out.subrange(0, keep)) =~= p2 + all.drop_last());
        } else {
            assert(out[l - 1]@ == texts(out)[l - 1]);
            assert(texts(out)[l - 1] == all[3 * n - 3]);
            assert(keep == l);
            assert(out.subrange(0, keep) == out);
        }
    }
}

/// What an expression with no newlines or comments anywhere in it prints,
/// for the kinds that print as their parts in order: names and literals
/// (a number with a bare dot gets its zero), unary operators, binary
/// operators with a space on each side, and assignments; none for any other.
pub open spec fn flat_pieces(e: ExprBox) -> Option<Seq<Seq<char>>>
    decreases e,
{
    if e.trailing_comments is Some {
        None
    } else {
        match e.expr {
            Expr::Identifier { name, comments } => if comments is None {
                Some(seq![name.token_type.spec_name(), space_text()])
            } else {
                None
            },
            Expr::Literal { literal_token, comments } => if comments is None {
                Some(seq![literal_token.token_type.spec_name(), space_text()])
            } else {
                None
            },
            Expr::NumberStartDot { literal_token, comments } => if comments is None {
                Some(seq![seq!['0'], literal_token.token_type.spec_name(), space_text()])
            } else {
                None
            },
            Expr::NumberEndDot { literal_token, comments } => if comments is None {
                Some(seq![literal_token.token_type.spec_name(), seq!['0'], space_text()])
            } else {
                None
            },
            Expr::UnidentifiedAsLiteral { literal_token } => Some(
                seq![literal_token.token_type.spec_name(), space_text()],
            ),
            Expr::Call { procedure_name, comments_and_newlines_after_lparen, arguments } => {
                match simple_word(procedure_name) {
                    Some(w) => if comments_and_newlines_after_lparen is None && !is_ws_piece(w) && plain_lines(
                        arguments.lines@,
                    ) {
                        Some(seq![w, LPAREN@] + call_args_pieces(arguments) + seq![RPAREN@, space_text()])
                    } else {
                        None
                    },
                    None => None,
                }
            },
            Expr::Unary { operator, comments_and_newlines_between, right } => {
                if comments_and_newlines_between is None && flat_pieces(right) is Some {
                    let op = if operator.token_type is NotAlias {
                        seq![operator.token_type.spec_name(), space_text()]
                    } else {
                        seq![operator.token_type.spec_name()]
                    };
                    Some(op + flat_pieces(right)->0)
                } else {
                    None
                }
            },
            Expr::Binary { left, operator, comments_and_newlines_between_op_and_r, right } => {
                if comments_and_newlines_between_op_and_r is None && flat_pieces(left) is Some && flat_pieces(
                    right,
                ) is Some {
                    Some(flat_pieces(left)->0 + seq![operator.token_type.spec_name(), space_text()] + flat_pieces(
                        right,
                    )->0)
                } else {
                    None
                }
            },
            Expr::Assign { left, operator, comments_and_newlines_between_op_and_r, right } => {
                if comments_and_newlines_between_op_and_r is None && flat_pieces(left) is Some && flat_pieces(
                    right,
                ) is Some {
                    Some(flat_pieces(left)->0 + seq![operator.token_type.spec_name(), space_text()] + flat_pieces(
                        right,
                    )->0)
                } else {
                    None
                }
            },
            Expr::Grouping { expressions, comments_and_newlines_after_lparen, comments_and_newlines_after_rparen } => {
                if expressions@.len() == 1 && comments_and_newlines_after_lparen is None
                    && comments_and_newlines_after_rparen is None {
                    proof {
                        assert(decreases_to!(e => e.expr));
                        assert(decreases_to!(e.expr => expressions));
                        assert(decreases_to!(expressions => expressions@));
                        assert(decreases_to!(expressions@ => expressions@[0]));
                    }
                    match flat_pieces(expressions@[0]) {
                        Some(p) => if !is_ws_piece(p[p.len() - 2]) {
                            Some(seq![LPAREN@] + p.drop_last() + seq![RPAREN@, space_text()])
                        } else {
                            None
                        },
                        None => None,
                    }
                } else {
                    None
                }
            },
            Expr::DotAccess { object_name, comments_between, instance_variable } => {
                if comments_between is None && flat_pieces(object_name) is Some && flat_pieces(instance_variable) is Some
                    && !is_ws_piece(flat_pieces(object_name)->0[flat_pieces(object_name)->0.len() - 2]) {
                    Some(flat_pieces(object_name)->0.drop_last() + seq!["."@] + flat_pieces(instance_variable)->0)
                } else {
                    None
                }
            },
            Expr::Ternary {
                conditional,
                comments_and_newlines_after_q,
                left,
                comments_and_newlines_after_colon,
                right,
            } => {
                if comments_and_newlines_after_q is None && comments_and_newlines_after_colon is None && flat_pieces(
                    conditional,
                ) is Some && flat_pieces(left) is Some && flat_pieces(right) is Some {
                    Some(flat_pieces(conditional)->0 + seq!["?"@, space_text()] + flat_pieces(left)->0 + seq![
                        ":"@,
                        space_text(),
                    ] + flat_pieces(right)->0)
                } else {
                    None
                }
            },
            _ => None,
        }
    }
}

/// What a flat expression prints ends with a space after a piece that is no whitespace
/// (where the words of its tokens are none).
proof fn lemma_flat_ends_with_space(e: ExprBox)
    requires
        flat_pieces(e) is Some,
    ensures
        flat_pieces(e)->0.len() >= 2,
        flat_pieces(e)->0.last() == space_text(),
    decreases e,
{
    match e.expr {
        Expr::Unary { right, .. } => {
            lemma_flat_ends_with_space(right);
        },
        Expr::Binary { right, .. } => {
            lemma_flat_ends_with_space(right);
        },
        Expr::Assign { right, .. } => {
            lemma_flat_ends_with_space(right);
        },
        Expr::Ternary { right, .. } => {
            lemma_flat_ends_with_space(right);
        },
        Expr::DotAccess { instance_variable, .. } => {
            lemma_flat_ends_with_space(instance_variable);
        },
        _ => {},
    }
}

/// Output that ends with a word and a space: taking a space back takes that space.
proof fn lemma_backspace_after_word(before: Seq<Seq<char>>, p: Seq<Seq<char>>, mid: Seq<&str>)
    requires
        texts(mid) == before + p,
        p.len() >= 2,
        p.last() == space_text(),
        !is_ws_piece(p[p.len() - 2]),
    ensures
        backspaced(mid) == mid.drop_last(),
        texts(mid.drop_last()) == before + p.drop_last(),
{
    reveal_pieces();
    reveal_with_fuel(whitespace_back_to_newline, 2);
    let n = mid.len();
    assert(texts(mid).len() == n);
    assert(n == before.len() + p.len());
    assert(texts(mid)[n - 1] == mid[n - 1]@);
    assert(texts(mid)[n - 2] == mid[n - 2]@);
    assert((before + p)[n - 1] == p.last());
    assert((before + p)[n - 2] == p[p.len() - 2]);
    assert(is_blank_piece(mid[n - 1]@));
    assert(!whitespace_back_to_newline(mid, n - 1));
    assert(texts(mid.drop_last()) =~= before + p.drop_last()) by {
        assert forall|i: int| 0 <= i < n - 1 implies #[trigger] texts(mid.drop_last())[i] == (before
            + p.drop_last())[i] by {
            assert(texts(mid)[i] == mid[i]@);
            assert((before + p)[i] == (before + p.drop_last())[i]);
        }
    }
}

/// The keywords `return`, `break` and `exit` are no space, so taking a space back
/// after one of them takes nothing.
proof fn lemma_word_not_blank(w: Seq<char>)
    requires
        w == "return"@ || w == "break"@ || w == "exit"@,
    ensures
        w != space_text(),
        w.len() > 1,
{
    reveal_strlit("return");
    reveal_strlit("break");
    reveal_strlit("exit");
    assert(w.len() > 1);
    assert(space_text().len() == 1);
}

/// The output after making sure that it ends with whitespace: a space is added
/// unless the last piece is a space, tab or newline.
pub open spec fn with_space(ps: Seq<Seq<char>>) -> Seq<Seq<char>> {
    if ps.len() > 0 && is_ws_piece(ps.last()) {
        ps
    } else {
        ps.push(space_text())
    }
}

/// What a run of comments and other tokens with no newline among them prints
/// after `ps`, token by token: a comment after whitespace; a region or `then`
/// after whitespace and followed by a space; any other token followed by a space.
pub open spec fn run_pieces(ps: Seq<Seq<char>>, toks: Seq<Token>) -> Seq<Seq<char>>
    decreases toks.len(),
{
    if toks.len() == 0 {
        ps
    } else {
        let before = run_pieces(ps, toks.drop_last());
        let t = toks.last();
        if t.token_type is Comment || t.token_type is MultilineComment {
            with_space(before).push(t.token_type.spec_name())
        } else if t.token_type is RegionBegin || t.token_type is RegionEnd || t.token_type is Then {
            with_space(before).push(t.token_type.spec_name()).push(space_text())
        } else {
            before.push(t.token_type.spec_name()).push(space_text())
        }
    }
}

/// Every piece of `old` that is no space, tab or newline stands in `new` at the same place.
pub open spec fn keeps_words(old: Seq<&str>, new: Seq<&str>) -> bool {
    forall|k: int| 0 <= k < old.len() && !is_ws_piece(#[trigger] old[k]@) ==> k < new.len() && new[k] == old[k]
}

/// Keeping the words of `a` in `b`, and those of `b` in `c`, keeps those of `a` in `c`.
proof fn lemma_keeps_trans(a: Seq<&str>, b: Seq<&str>, c: Seq<&str>)
    requires
        keeps_words(a, b),
        keeps_words(b, c),
    ensures
        keeps_words(a, c),
{
    assert forall|k: int| 0 <= k < a.len() && !is_ws_piece(#[trigger] a[k]@) implies k < c.len() && c[k] == a[k] by {
        assert(b[k] == a[k]);
        assert(!is_ws_piece(b[k]@));
    }
}

/// The text `w` stands among the pieces from index `lo` on.
pub open spec fn printed_from(ps: Seq<Seq<char>>, lo: int, w: Seq<char>) -> bool {
    exists|k: int| 0 <= k && lo <= k < ps.len() && #[trigger] ps[k] == w
}

proof fn lemma_printed_kept(before: Seq<&str>, after: Seq<&str>, lo: int, w: Seq<char>)
    requires
        keeps_words(before, after),
        printed_from(texts(before), lo, w),
        !is_ws_piece(w),
    ensures
        printed_from(texts(after), lo, w),
{
    let k = choose|k: int| 0 <= k && lo <= k < texts(before).len() && #[trigger] texts(before)[k] == w;
    assert(texts(before).len() == before.len());
    assert(texts(before)[k] == before[k]@);
    assert(before[k]@ == w);
    assert(after[k] == before[k]);
    assert(texts(after).len() == after.len());
    assert(texts(after)[k] == w);
}

/// Going back from `pos` over blanks to a newline: everything after that
/// newline is blank.
proof fn lemma_blank_tail(ps: Seq<&str>, pos: int, ignore_newline: bool)
    requires
        0 <= pos < ps.len(),
        blank_line_back(ps, pos, ignore_newline),
    ensures
        forall|k: int| last_newline_at_or_before(ps, pos) < k <= pos ==> is_blank_piece(#[trigger] ps[k]@),
    decreases pos,
{
    if is_blank_piece(ps[pos]@) {
        lemma_fixed_pieces_not_newline();
        assert(ps[pos]@ != newline_text());
        if pos > 0 && blank_line_back(ps, pos - 1, ignore_newline) {
            lemma_blank_tail(ps, pos - 1, ignore_newline);
        }
    }
}

/// Going back from `pos` over spaces, tabs and newlines: everything after the
/// piece where that stops is whitespace.
proof fn lemma_ws_tail(ps: Seq<&str>, pos: int)
    requires
        0 <= pos < ps.len(),
    ensures
        forall|k: int| last_non_ws_at_or_before(ps, pos) < k <= pos ==> is_ws_piece(#[trigger] ps[k]@),
    decreases pos,
{
    if pos > 0 && is_ws_piece(ps[pos]@) {
        lemma_ws_tail(ps, pos - 1);
    }
}

/// Going back from `pos` over spaces and tabs to a newline: everything after
/// that newline is blank.
proof fn lemma_line_tail(ps: Seq<&str>, pos: int)
    requires
        0 <= pos < ps.len(),
        whitespace_back_to_newline(ps, pos),
    ensures
        forall|k: int| last_newline_at_or_before(ps, pos) < k <= pos ==> is_blank_piece(#[trigger] ps[k]@),
    decreases pos,
{
    if is_blank_piece(ps[pos]@) {
        lemma_fixed_pieces_not_newline();
        assert(ps[pos]@ != newline_text());
        lemma_line_tail(ps, pos - 1);
    }
}

/// Lines of single words that are not whitespace, with no comments after them.
pub open spec fn plain_lines(ls: Seq<DelimitedLine<ExprBox>>) -> bool {
    forall|i: int|
        0 <= i < ls.len() ==> (#[trigger] simple_word(ls[i].expr) matches Some(w) && !is_ws_piece(w))
            && ls[i].trailing_comment is None
}

/// Each word of plain lines, followed by the delimiter and a space.
pub open spec fn words_with_delimiters(ls: Seq<DelimitedLine<ExprBox>>, d: Seq<char>) -> Seq<Seq<char>>
    decreases ls.len(),
{
    if ls.len() == 0 {
        Seq::empty()
    } else {
        words_with_delimiters(ls.drop_last(), d) + seq![simple_word(ls.last().expr)->0, d, space_text()]
    }
}

proof fn lemma_words_with_delimiters_len(ls: Seq<DelimitedLine<ExprBox>>, d: Seq<char>)
    ensures
        words_with_delimiters(ls, d).len() == 3 * ls.len(),
    decreases ls.len(),
{
    if ls.len() > 0 {
        lemma_words_with_delimiters_len(ls.drop_last(), d);
    }
}

/// The comment of a statement that is a comment; none for any other statement.
pub open spec fn comment_text(s: StatementWrapper) -> Option<Seq<char>> {
    match s.statement {
        Statement::Comment { comment } => Some(comment.token_type.spec_name()),
        Statement::MultilineComment { multiline_comment } => Some(multiline_comment.token_type.spec_name()),
        _ => None,
    }
}

/// What a statement prints when it is one of the simple kinds, exactly: a
/// comment and a space; an expression that prints flat, then its semicolon in
/// place of its last space; `break`, `exit` and `return` (with a flat value or
/// none) with their semicolon. None for any other statement.
pub open spec fn simple_pieces(s: StatementWrapper) -> Option<Seq<Seq<char>>> {
    match s.statement {
        Statement::Comment { comment } => Some(seq![comment.token_type.spec_name(), space_text()]),
        Statement::MultilineComment { multiline_comment } => Some(
            seq![multiline_comment.token_type.spec_name(), space_text()],
        ),
        Statement::ExpresssionStatement { expression } => match flat_pieces(expression) {
            Some(p) => if s.has_semicolon && !is_ws_piece(p[p.len() - 2]) {
                Some(p.drop_last() + seq![SEMICOLON@, space_text()])
            } else {
                None
            },
            None => None,
        },
        Statement::Break => if s.has_semicolon {
            Some(seq!["break"@, SEMICOLON@, space_text()])
        } else {
            None
        },
        Statement::Exit => if s.has_semicolon {
            Some(seq!["exit"@, SEMICOLON@, space_text()])
        } else {
            None
        },
        Statement::Return { expression } => if s.has_semicolon {
            match expression {
                None => Some(seq!["return"@, SEMICOLON@, space_text()]),
                Some(e) => match flat_pieces(e) {
                    Some(p) => if !is_ws_piece(p[p.len() - 2]) {
                        Some(seq!["return"@, space_text()] + p.drop_last() + seq![SEMICOLON@, space_text()])
                    } else {
                        None
                    },
                    None => None,
                },
            }
        } else {
            None
        },
        _ => None,
    }
}

/// A statement that is a newline alone, with nothing after it and no semicolon.
pub open spec fn is_newline_statement(s: StatementWrapper) -> bool {
    &&& !s.has_semicolon
    &&& s.statement is ExpresssionStatement
    &&& s.statement->ExpresssionStatement_expression.expr is Newline
    &&& s.statement->ExpresssionStatement_expression.trailing_comments is None
}

/// Whether every statement is of a simple kind.
pub open spec fn all_simple(ss: Seq<StmtBox>) -> bool {
    forall|i: int| 0 <= i < ss.len() ==> #[trigger] simple_pieces(*ss[i]) is Some
}

/// What a run of simple statements prints: what each prints, in order.
pub open spec fn simple_run_pieces(ss: Seq<StmtBox>) -> Seq<Seq<char>>
    decreases ss.len(),
{
    if ss.len() == 0 {
        Seq::empty()
    } else {
        simple_run_pieces(ss.drop_last()) + simple_pieces(*ss.last())->0
    }
}

/// A piece of one character other than a newline is no newline piece.
proof fn lemma_not_newline(c: char)
    requires
        c != '\n',
    ensures
        seq![c] != newline_text(),
{
    assert(seq![c][0] == c);
    assert(newline_text()[0] == '\n');
}

/// The fixed pieces other than the newline are no newline pieces.
proof fn lemma_fixed_pieces_not_newline()
    ensures
        SPACE@ != newline_text(),
        TAB@ != newline_text(),
        LPAREN@ != newline_text(),
        RPAREN@ != newline_text(),
        LBRACE@ != newline_text(),
        RBRACE@ != newline_text(),
        COMMA@ != newline_text(),
        SEMICOLON@ != newline_text(),
        NEWLINE@ == newline_text(),
        space_text() != newline_text(),
        tab_text() != newline_text(),
{
    reveal_pieces();
    lemma_not_newline(' ');
    lemma_not_newline('\t');
    lemma_not_newline('(');
    lemma_not_newline(')');
    lemma_not_newline('{');
    lemma_not_newline('}');
    lemma_not_newline(',');
    lemma_not_newline(';');
}

/// The words that the printer prints itself are no newline pieces.
proof fn lemma_words_not_newline()
    ensures
        "function"@ != newline_text(),
        "constructor"@ != newline_text(),
        "["@ != newline_text(),
        "]"@ != newline_text(),
        "0"@ != newline_text(),
        "."@ != newline_text(),
        "?"@ != newline_text(),
        ":"@ != newline_text(),
        "enum"@ != newline_text(),
        "if"@ != newline_text(),
        "else"@ != newline_text(),
        "do"@ != newline_text(),
        "until"@ != newline_text(),
        "for"@ != newline_text(),
        "return"@ != newline_text(),
        "break"@ != newline_text(),
        "exit"@ != newline_text(),
        "switch"@ != newline_text(),
        "case"@ != newline_text(),
        "default"@ != newline_text(),
        "#define"@ != newline_text(),
{
    reveal_strlit("function");
    reveal_strlit("constructor");
    reveal_strlit("[");
    reveal_strlit("]");
    reveal_strlit("0");
    reveal_strlit(".");
    reveal_strlit("?");
    reveal_strlit(":");
    reveal_strlit("enum");
    reveal_strlit("if");
    reveal_strlit("else");
    reveal_strlit("do");
    reveal_strlit("until");
    reveal_strlit("for");
    reveal_strlit("return");
    reveal_strlit("break");
    reveal_strlit("exit");
    reveal_strlit("switch");
    reveal_strlit("case");
    reveal_strlit("default");
    reveal_strlit("#define");
    lemma_not_newline('[');
    lemma_not_newline(']');
    assert("["@ =~= seq!['[']);
    assert("]"@ =~= seq![']']);
    lemma_not_newline('0');
    assert("0"@ =~= seq!['0']);
    lemma_not_newline('.');
    assert("."@ =~= seq!['.']);
    lemma_not_newline('?');
    assert("?"@ =~= seq!['?']);
    lemma_not_newline(':');
    assert(":"@ =~= seq![':']);
    assert(newline_text().len() == 1);
}

/// The text of each piece of output.
pub open spec fn texts(out: Seq<&str>) -> Seq<Seq<char>> {
    Seq::new(out.len(), |i: int| out[i]@)
}

/// All the output, as one text.
pub open spec fn joined(ps: Seq<Seq<char>>) -> Seq<char>
    decreases ps.len(),
{
    if ps.len() == 0 {
        Seq::empty()
    } else {
        joined(ps.drop_last()) + ps.last()
    }
}

pub open spec fn is_blank_piece(p: Seq<char>) -> bool {
    p == space_text() || p == tab_text()
}

pub open spec fn is_ws_piece(p: Seq<char>) -> bool {
    p == space_text() || p == tab_text() || p == newline_text()
}

/// Going back from `pos` (not looking at the first piece) over spaces and
/// tabs, a newline is met.
pub open spec fn whitespace_back_to_newline(ps: Seq<&str>, pos: int) -> bool
    decreases pos,
{
    if pos <= 0 {
        false
    } else if is_blank_piece(ps[pos]@) {
        whitespace_back_to_newline(ps, pos - 1)
    } else {
        ps[pos]@ == newline_text()
    }
}

/// Nothing but spaces and tabs since the last newline (or nothing at all).
pub open spec fn spec_on_whitespace_line(ps: Seq<&str>) -> bool {
    ps.len() == 0 || whitespace_back_to_newline(ps, ps.len() - 1)
}

/// Going back from `pos` over spaces, tabs and the first newline, a second newline is met.
pub open spec fn blank_line_back(ps: Seq<&str>, pos: int, ignore_newline: bool) -> bool
    decreases pos,
{
    if pos <= 0 {
        false
    } else if is_blank_piece(ps[pos]@) {
        blank_line_back(ps, pos - 1, ignore_newline)
    } else if ps[pos]@ == newline_text() {
        if ignore_newline {
            blank_line_back(ps, pos - 1, false)
        } else {
            true
        }
    } else {
        false
    }
}

/// The output ends with a line of nothing but spaces and tabs.
pub open spec fn spec_prev_line_was_whitespace(ps: Seq<&str>) -> bool {
    ps.len() >= 2 && blank_line_back(ps, ps.len() - 1, true)
}

/// Going back from `pos` over spaces, tabs and the first newline (when
/// `ignore_newline`), a newline is met, so that the text ends with a blank line.
/// The first piece is not looked at.
pub open spec fn blank_line_at(ts: Seq<Seq<char>>, pos: int, ignore_newline: bool) -> bool
    decreases pos,
{
    if pos <= 0 {
        false
    } else if is_blank_piece(ts[pos]) {
        blank_line_at(ts, pos - 1, ignore_newline)
    } else if ts[pos] == newline_text() {
        if ignore_newline {
            blank_line_at(ts, pos - 1, false)
        } else {
            true
        }
    } else {
        false
    }
}

/// No newline piece ends a second blank line in a row: excess newlines are
/// gone (the first piece is not looked at).
pub open spec fn no_excess_newlines(ts: Seq<Seq<char>>) -> bool {
    forall|k: int| 0 <= k < ts.len() && #[trigger] ts[k] == newline_text() ==> !blank_line_at(ts, k - 1, true)
}

proof fn lemma_blank_line_texts(ps: Seq<&str>, pos: int, ignore_newline: bool)
    requires
        pos < ps.len(),
    ensures
        blank_line_back(ps, pos, ignore_newline) == blank_line_at(texts(ps), pos, ignore_newline),
    decreases pos,
{
    if pos > 0 {
        lemma_blank_line_texts(ps, pos - 1, ignore_newline);
        lemma_blank_line_texts(ps, pos - 1, false);
    }
}

/// Whether a blank line ends at `pos` depends only on the pieces up to `pos`.
proof fn lemma_blank_line_prefix(ts: Seq<Seq<char>>, us: Seq<Seq<char>>, pos: int, ignore_newline: bool)
    requires
        pos < ts.len(),
        pos < us.len(),
        forall|i: int| 0 <= i <= pos ==> ts[i] == us[i],
    ensures
        blank_line_at(ts, pos, ignore_newline) == blank_line_at(us, pos, ignore_newline),
    decreases pos,
{
    if pos > 0 {
        lemma_blank_line_prefix(ts, us, pos - 1, ignore_newline);
        lemma_blank_line_prefix(ts, us, pos - 1, false);
    }
}

/// Where the last line is not blank, a newline may follow, also after a
/// trailing space is taken back.
proof fn lemma_newline_allowed(ps: Seq<&str>, mid: Seq<&str>)
    requires
        !spec_prev_line_was_whitespace(ps),
        mid == ps || (ps.len() > 0 && mid == ps.drop_last() && ps.last()@ == space_text()),
    ensures
        !blank_line_at(texts(mid), mid.len() - 1, true),
{
    let t = texts(ps);
    let m = texts(mid);
    if ps.len() >= 2 {
        lemma_blank_line_texts(ps, ps.len() - 1, true);
        if mid != ps {
            assert(t[ps.len() - 1] == space_text());
            assert(blank_line_at(t, ps.len() - 1, true) == blank_line_at(t, ps.len() - 2, true));
            lemma_blank_line_prefix(t, m, ps.len() - 2, true);
        }
    }
}

/// Taking pieces off the end keeps excess newlines away.
proof fn lemma_no_excess_prefix(ts: Seq<Seq<char>>, m: int)
    requires
        no_excess_newlines(ts),
        0 <= m <= ts.len(),
    ensures
        no_excess_newlines(ts.subrange(0, m)),
{
    let us = ts.subrange(0, m);
    assert forall|k: int| 0 <= k < us.len() && #[trigger] us[k] == newline_text() implies !blank_line_at(
        us,
        k - 1,
        true,
    ) by {
        assert(ts[k] == newline_text());
        lemma_blank_line_prefix(ts, us, k - 1, true);
    }
}

/// Adding a piece keeps excess newlines away, unless it is a newline that
/// would end a second blank line.
proof fn lemma_no_excess_push(ts: Seq<Seq<char>>, x: Seq<char>)
    requires
        no_excess_newlines(ts),
        x == newline_text() ==> !blank_line_at(ts, ts.len() - 1, true),
    ensures
        no_excess_newlines(ts.push(x)),
{
    let us = ts.push(x);
    assert forall|k: int| 0 <= k < us.len() && #[trigger] us[k] == newline_text() implies !blank_line_at(
        us,
        k - 1,
        true,
    ) by {
        if k < ts.len() {
            assert(ts[k] == newline_text());
            lemma_blank_line_prefix(ts, us, k - 1, true);
        } else {
            lemma_blank_line_prefix(ts, us, k - 1, true);
        }
    }
}

/// The output with its last piece taken back when that is a space and the
/// last line holds more than whitespace.
pub open spec fn backspaced(ps: Seq<&str>) -> Seq<&str> {
    if ps.len() != 0 && !spec_on_whitespace_line(ps) && ps.last()@ == space_text() {
        ps.drop_last()
    } else {
        ps
    }
}

/// Going back from `pos`, the index of the last newline (never below index 0).
pub open spec fn last_newline_at_or_before(ps: Seq<&str>, pos: int) -> int
    decreases pos,
{
    if pos <= 0 {
        0
    } else if ps[pos]@ == newline_text() {
        pos
    } else {
        last_newline_at_or_before(ps, pos - 1)
    }
}

/// Going back from `pos`, the index of the last piece that is not whitespace
/// (never below index 0).
pub open spec fn last_non_ws_at_or_before(ps: Seq<&str>, pos: int) -> int
    decreases pos,
{
    if pos <= 0 {
        0
    } else if is_ws_piece(ps[pos]@) {
        last_non_ws_at_or_before(ps, pos - 1)
    } else {
        pos
    }
}

/// Newline pieces from `a` to `b`.
pub open spec fn newlines_in(ps: Seq<&str>, a: int, b: int) -> int
    decreases b - a,
{
    if b <= a {
        0
    } else {
        newlines_in(ps, a, b - 1) + if ps[b - 1]@ == newline_text() { 1int } else { 0int }
    }
}

/// The output without its trailing whitespace pieces (all of them, the first included).
pub open spec fn strip_trailing_ws(ps: Seq<Seq<char>>) -> Seq<Seq<char>>
    decreases ps.len(),
{
    if ps.len() > 0 && is_ws_piece(ps.last()) {
        strip_trailing_ws(ps.drop_last())
    } else {
        ps
    }
}

/// `n` newline pieces.
pub open spec fn newlines(n: nat) -> Seq<Seq<char>>
    decreases n,
{
    if n == 0 {
        Seq::empty()
    } else {
        newlines((n - 1) as nat).push(newline_text())
    }
}

/// One indentation step: move a level right, stay, or move a level left.
#[derive(Debug, Copy, Clone)]
pub enum IndentationMove {
    Right,
    Stay,
    Left,
}

/// Which newlines of the source to keep at the start of a run of newlines and comments.
#[derive(Debug, Copy, Clone, PartialEq, Eq, Structural)]
pub enum LeadingNewlines {
    All,
    One,
    Zero,
}

/// How a block is laid out (a set of flags).
#[derive(Copy, Clone)]
pub struct BlockInstruction {
    bits: u8,
}

impl BlockInstruction {
    pub closed spec fn spec_bits(&self) -> u8 {
        self.bits
    }

    pub fn none() -> (r: BlockInstruction)
        ensures
            r.spec_bits() == 0,
    {
        BlockInstruction { bits: 0b00 }
    }

    /// No newline after the closing brace.
    pub fn no_newline_after_block() -> (r: BlockInstruction)
        ensures
            r.spec_bits() == 1,
    {
        BlockInstruction { bits: 0b01 }
    }

    /// Always put the statements on lines of their own.
    pub fn must_indent() -> (r: BlockInstruction)
        ensures
            r.spec_bits() == 2,
    {
        BlockInstruction { bits: 0b10 }
    }

    /// The bits of both instructions.
    pub open spec fn union_spec(self, other: BlockInstruction) -> u8 {
        self.spec_bits() | other.spec_bits()
    }

    pub fn union(self, other: BlockInstruction) -> (r: BlockInstruction)
        ensures
            r.spec_bits() == self.union_spec(other),
    {
        BlockInstruction { bits: self.bits | other.bits }
    }

    pub fn contains(&self, other: BlockInstruction) -> (r: bool)
        ensures
            r == (self.spec_bits() & other.spec_bits() == other.spec_bits()),
    {
        self.bits & other.bits == other.bits
    }
}

/// How a grouping prints what follows its closing parenthesis.
#[derive(Copy, Clone)]
pub struct GroupInstruction {
    force_indentation: Option<IndentationMove>,
    force_leading_newlines: Option<LeadingNewlines>,
    force_respect: Option<bool>,
}

impl GroupInstruction {
    fn default() -> (r: GroupInstruction)
        ensures
            r.force_indentation is None,
            r.force_leading_newlines is None,
            r.force_respect is None,
    {
        GroupInstruction { force_indentation: None, force_leading_newlines: None, force_respect: None }
    }

    fn force_indentation(&self) -> (r: IndentationMove)
        ensures
            r == (match self.force_indentation {
                Some(m) => m,
                None => IndentationMove::Stay,
            }),
    {
        if let Some(ret) = self.force_indentation {
            ret
        } else {
            IndentationMove::Stay
        }
    }

    fn force_leading_newlines(&self) -> (r: LeadingNewlines)
        ensures
            r == (match self.force_leading_newlines {
                Some(m) => m,
                None => LeadingNewlines::All,
            }),
    {
        if let Some(ret) = self.force_leading_newlines {
            ret
        } else {
            LeadingNewlines::All
        }
    }

    fn force_respect(&self) -> (r: bool)
        ensures
            r == (match self.force_respect {
                Some(b) => b,
                None => false,
            }),
    {
        if let Some(ret) = self.force_respect {
            ret
        } else {
            false
        }
    }
}

/// How to print a run of newlines and comments.
pub struct CommentAndNewlinesInstruction {
    pub indentation_move: IndentationMove,
    pub leading_newlines: LeadingNewlines,
    /// Keep the source's own indentation of the lines.
    pub respect_user_newline: bool,
    /// The run follows an expression, so a comment in it ends the statement.
    pub trailing_comment: bool,
}

impl CommentAndNewlinesInstruction {
    pub fn new(indentation_move: IndentationMove, leading_newlines: LeadingNewlines) -> (r: Self)
        ensures
            r.indentation_move == indentation_move,
            r.leading_newlines == leading_newlines,
            r.respect_user_newline == false,
            r.trailing_comment == false,
    {
        CommentAndNewlinesInstruction {
            indentation_move,
            leading_newlines,
            ..CommentAndNewlinesInstruction::default()
        }
    }

    pub fn new_respect_users(indentation_move: IndentationMove, leading_newlines: LeadingNewlines) -> (r: Self)
        ensures
            r.indentation_move == indentation_move,
            r.leading_newlines == leading_newlines,
            r.respect_user_newline == true,
            r.trailing_comment == false,
    {
        CommentAndNewlinesInstruction {
            indentation_move,
            leading_newlines,
            respect_user_newline: true,
            ..CommentAndNewlinesInstruction::default()
        }
    }
}

impl Default for CommentAndNewlinesInstruction {
    fn default() -> (r: Self)
        ensures
            r.indentation_move == IndentationMove::Stay,
            r.leading_newlines == LeadingNewlines::One,
            r.respect_user_newline == false,
            r.trailing_comment == false,
    {
        CommentAndNewlinesInstruction {
            indentation_move: IndentationMove::Stay,
            leading_newlines: LeadingNewlines::One,
            respect_user_newline: false,
            trailing_comment: false,
        }
    }
}

/// Lays out statements as formatted GML, as a list of pieces of text.
pub struct Printer<'a> {
    output: Vec<&'a str>,
    lang_config: &'a LangConfig,
    indentation: usize,
    do_not_print_single_newline_statement: bool,
    block_instructions: Vec<BlockInstruction>,
    group_instructions: Vec<GroupInstruction>,
    user_indentation_instructions: Vec<usize>,
    do_dot_indent: bool,
    in_a_for_loop: Vec<()>,
    do_not_need_semicolon: Vec<()>,
}

impl<'a> Printer<'a> {
    /// The text of each piece printed so far.
    pub closed spec fn pieces(&self) -> Seq<Seq<char>> {
        texts(self.output@)
    }

    pub closed spec fn config(&self) -> LangConfig {
        *self.lang_config
    }

    pub closed spec fn indent_level(&self) -> int {
        self.indentation as int
    }

    /// The output has no excess newlines.
    pub open spec fn wf(&self) -> bool {
        no_excess_newlines(self.pieces())
    }

    /// `self` is `old` with only the output changed.
    closed spec fn only_output_changed(&self, old: &Printer<'a>) -> bool {
        *self == (Printer { output: self.output, ..*old })
    }

    /// `self` is `old` after a newline and the indentation after `indentation_move`;
    /// nothing happens where nothing is printed yet or the last line is already blank.
    closed spec fn newline_printed(&self, old: &Printer<'a>, indentation_move: IndentationMove) -> bool {
        if old.output@.len() == 0 || spec_prev_line_was_whitespace(old.output@) {
            *self == *old
        } else {
            &&& self.indentation == next_indentation(old.indentation as int, indentation_move)
            &&& self.output@ == backspaced(old.output@).push(NEWLINE) + indentation_pieces(
                self.indentation as nat,
                *old.lang_config,
            )
            &&& *self == (Printer { output: self.output, indentation: self.indentation, ..*old })
        }
    }

    pub fn new(size: usize, lang_config: &'a LangConfig) -> (r: Printer<'a>)
        ensures
            r.pieces().len() == 0,
            r.config() == *lang_config,
            r.indent_level() == 0,
    {
        Printer {
            output: Vec::with_capacity(size),
            lang_config,
            indentation: 0,
            do_not_print_single_newline_statement: false,
            block_instructions: Vec::new(),
            group_instructions: Vec::new(),
            user_indentation_instructions: Vec::new(),
            do_dot_indent: true,
            in_a_for_loop: Vec::new(),
            do_not_need_semicolon: Vec::new(),
        }
    }

    /// Prints the statements, then ends the output with the configured number
    /// of newlines in place of whatever whitespace the statements left.
    pub fn autoformat(self, ast: &'a [StmtBox<'a>]) -> (r: Printer<'a>)
        ensures
            r.config() == self.config(),
            ends_with_newlines(r.pieces(), self.config().newlines_at_end as nat),
            ast@.len() == 0 && self.pieces().len() == 0 ==> r.pieces().len() == 0,
            (forall|i: int| 0 <= i < ast@.len() ==> is_newline_statement(*ast@[i])) && self.pieces().len() == 0
                ==> r.pieces().len() == 0,
            all_simple(ast@) ==> {
                let body = strip_trailing_ws(self.pieces() + simple_run_pieces(ast@));
                r.pieces() == if body.len() == 0 {
                    body
                } else {
                    body + newlines(self.config().newlines_at_end as nat)
                }
            },
            self.wf() && (forall|i: int| 0 <= i < ast@.len() ==> stmt_printable(*#[trigger] ast@[i])) ==> (
            r.pieces().len() == 0 || no_excess_newlines(
                r.pieces().subrange(0, r.pieces().len() - self.config().newlines_at_end),
            )),
    {
        let ghost cfg = self.lang_config;
        let ghost start = self.pieces();
        let ghost ok = self.wf() && (forall|i: int| 0 <= i < ast@.len() ==> stmt_printable(*#[trigger] ast@[i]));
        let mut printer = self;
        let mut i: usize = 0;
        while i < ast.len()
            invariant
                printer.lang_config == cfg,
                ok ==> printer.wf(),
                ok ==> forall|i: int| 0 <= i < ast@.len() ==> stmt_printable(*#[trigger] ast@[i]),
                i == 0 ==> printer.pieces() == start,
                i <= ast.len(),
                all_simple(ast@) ==> printer.pieces() == start + simple_run_pieces(ast@.subrange(0, i as int)),
                (forall|i: int| 0 <= i < ast@.len() ==> is_newline_statement(*ast@[i])) && start.len() == 0
                    ==> printer.pieces().len() == 0,
            decreases ast.len() - i,
        {
            proof {
                if ok {
                    assert(stmt_printable(*ast@[i as int]));
                }
                if i == 0 {
                    assert(start + simple_run_pieces(ast@.subrange(0, 0)) =~= start);
                }
            }
            printer.print_statement(&ast[i]);
            proof {
                if all_simple(ast@) {
                    let next = ast@.subrange(0, i + 1);
                    assert(next.drop_last() =~= ast@.subrange(0, i as int));
                    assert(next.last() == ast@[i as int]);
                    assert(simple_pieces(*ast@[i as int]) is Some);
                }
            }
            i = i + 1;
        }
        proof {
            assert(ast@.subrange(0, i as int) =~= ast@);
        }
        let ghost printed = printer.pieces();
        proof {
            reveal_pieces();
        }
        // whitespace at the end goes, whatever there is of it
        while printer.output.len() > 0 && is_ws_str(printer.output[printer.output.len() - 1])
            invariant
                printer.lang_config == cfg,
                strip_trailing_ws(printer.pieces()) == strip_trailing_ws(printed),
                printer.pieces().len() <= printed.len(),
                printer.pieces() == printed.subrange(0, printer.pieces().len() as int),
            decreases printer.output.len(),
        {
            let ghost before = printer.pieces();
            printer.output.pop();
            proof {
                assert(printer.pieces() =~= before.drop_last());
            }
        }
        proof {
            lemma_strip_ends_well(printer.pieces());
            if ok {
                lemma_no_excess_prefix(printed, printer.pieces().len() as int);
            }
        }
        let ghost stripped = printer.pieces();
        if printer.output.len() > 0 {
            let n = printer.lang_config.newlines_at_end;
            let mut k: usize = 0;
            while k < n
                invariant
                    printer.lang_config == cfg,
                    n == printer.lang_config.newlines_at_end,
                    k <= n,
                    printer.pieces() == stripped + newlines(k as nat),
                decreases n - k,
            {
                let ghost before = printer.pieces();
                printer.print(NEWLINE, false);
                proof {
                    reveal_pieces();
                    lemma_newlines_len(k as nat);
                    assert(printer.pieces() =~= before.push(newline_text()));
                    assert(printer.pieces() =~= stripped + newlines((k + 1) as nat));
                }
                k = k + 1;
            }
            proof {
                lemma_newlines_len(n as nat);
                let ps = printer.pieces();
                assert(ps.subrange(ps.len() - n, ps.len() as int) =~= newlines(n as nat));
                assert(ps[ps.len() - n - 1] == stripped.last());
                assert(ps.subrange(0, ps.len() - n) =~= stripped);
            }
        }
        printer
    }

    /// All the output, as one string.
    pub fn get_output(self, size: usize) -> (r: String)
        ensures
            r@ == joined(self.pieces()),
    {
        let mut output = String::new();
        let mut i: usize = 0;
        while i < self.output.len()
            invariant
                i <= self.output.len(),
                output@ == joined(texts(self.output@).subrange(0, i as int)),
            decreases self.output.len() - i,
        {
            output.append(self.output[i]);
            proof {
                let ps = texts(self.output@);
                assert(ps.subrange(0, i + 1).drop_last() =~= ps.subrange(0, i as int));
            }
            i = i + 1;
        }
        proof {
            assert(texts(self.output@).subrange(0, i as int) =~= texts(self.output@));
        }
        output
    }

    /// Adds `this_string`, and a space after it when `space_after`.
    fn print(&mut self, this_string: &'a str, space_after: bool)
        ensures
            old(self).wf() && this_string@ != newline_text() ==> final(self).wf(),
            final(self).only_output_changed(old(self)),
            final(self).output@ == if space_after {
                old(self).output@.push(this_string).push(SPACE)
            } else {
                old(self).output@.push(this_string)
            },
            keeps_words(old(self).output@, final(self).output@),
    {
        let ghost before = self.pieces();
        self.output.push(this_string);
        proof {
            lemma_fixed_pieces_not_newline();
            assert(self.pieces() =~= before.push(this_string@));
            if old(self).wf() && this_string@ != newline_text() {
                lemma_no_excess_push(before, this_string@);
            }
        }
        if space_after {
            let ghost mid = self.pieces();
            self.output.push(SPACE);
            proof {
                reveal_pieces();
                lemma_fixed_pieces_not_newline();
                assert(self.pieces() =~= mid.push(space_text()));
                if old(self).wf() && this_string@ != newline_text() {
                    lemma_no_excess_push(mid, space_text());
                }
            }
        }
    }

    fn print_token(&mut self, token: &'a Token<'a>, space_after: bool)
        ensures
            old(self).wf() && token.token_type.spec_name() != newline_text() ==> final(self).wf(),
            final(self).only_output_changed(old(self)),
            final(self).output@.len() == old(self).output@.len() + if space_after { 2int } else { 1int },
            final(self).output@.subrange(0, old(self).output@.len() as int) == old(self).output@,
            final(self).output@[old(self).output@.len() as int]@ == token.token_type.spec_name(),
            final(self).pieces() == if space_after {
                old(self).pieces().push(token.token_type.spec_name()).push(space_text())
            } else {
                old(self).pieces().push(token.token_type.spec_name())
            },
            keeps_words(old(self).output@, final(self).output@),
    {
        self.print(Printer::get_token_name(&token.token_type), space_after);
        proof {
            reveal_pieces();
            if space_after {
                assert(self.pieces() =~= old(self).pieces().push(token.token_type.spec_name()).push(space_text()));
            } else {
                assert(self.pieces() =~= old(self).pieces().push(token.token_type.spec_name()));
            }
        }
    }

    /// Nothing but spaces and tabs since the last newline, or nothing printed yet.
    fn on_whitespace_line(&self) -> (r: bool)
        ensures
            r == spec_on_whitespace_line(self.output@),
    {
        let ghost ps = self.output@;
        let mut pos = self.output.len();
        if pos == 0 {
            return true;
        };
        pos = pos - 1;
        proof {
            reveal_pieces();
        }
        while pos != 0
            invariant
                pos < self.output.len(),
                ps == self.output@,
                whitespace_back_to_newline(ps, pos as int) == whitespace_back_to_newline(ps, ps.len() - 1),
            decreases pos,
        {
            proof {
                reveal_pieces();
            }
            let piece = self.output[pos];
            assert(ps[pos as int] == piece);
            if str_eq(piece, SPACE) || str_eq(piece, TAB) {
                pos = pos - 1;
            } else if str_eq(piece, NEWLINE) {
                return true;
            } else {
                return false;
            }
        }
        false
    }

    /// The last line printed holds nothing but spaces and tabs.
    fn prev_line_was_whitespace(&self) -> (r: bool)
        ensures
            r == spec_prev_line_was_whitespace(self.output@),
    {
        let ghost ps = self.output@;
        let mut pos = self.output.len();
        if pos < 2 {
            return false;
        };
        pos = pos - 1;
        let mut ignore_newline = true;
        proof {
            reveal_pieces();
        }
        while pos != 0
            invariant
                pos < self.output.len(),
                ps == self.output@,
                blank_line_back(ps, pos as int, ignore_newline) == blank_line_back(ps, ps.len() - 1, true),
            decreases pos,
        {
            proof {
                reveal_pieces();
            }
            let piece = self.output[pos];
            assert(ps[pos as int] == piece);
            if str_eq(piece, SPACE) || str_eq(piece, TAB) {
                pos = pos - 1;
            } else if str_eq(piece, NEWLINE) {
                if ignore_newline {
                    pos = pos - 1;
                    ignore_newline = false;
                } else {
                    return true;
                }
            } else {
                return false;
            }
        }
        false
    }

    /// Removes what was printed since the last newline (never the first piece).
    fn backspace_till_newline(&mut self)
        ensures
            old(self).wf() ==> final(self).wf(),
            final(self).only_output_changed(old(self)),
            old(self).output@.len() == 0 ==> final(self).output@ == old(self).output@,
            old(self).output@.len() > 0 ==> final(self).output@ == old(self).output@.subrange(
                0,
                last_newline_at_or_before(old(self).output@, old(self).output@.len() - 1) + 1,
            ),
            spec_prev_line_was_whitespace(old(self).output@) ==> keeps_words(old(self).output@, final(self).output@),
            spec_on_whitespace_line(old(self).output@) ==> keeps_words(old(self).output@, final(self).output@),
    {
        let ghost ps = self.output@;
        let mut pos = self.output.len();
        if pos == 0 {
            return;
        };
        pos = pos - 1;
        proof {
            reveal_pieces();
        }
        while pos != 0
            invariant
                self.only_output_changed(old(self)),
                pos < self.output.len(),
                ps == old(self).output@,
                pos < ps.len(),
                self.output@ == old(self).output@.subrange(0, pos + 1),
                last_newline_at_or_before(ps, pos as int) == last_newline_at_or_before(ps, ps.len() - 1),
            ensures
                self.only_output_changed(old(self)),
                self.output@ == old(self).output@.subrange(0, pos + 1),
                last_newline_at_or_before(ps, ps.len() - 1) == pos,
            decreases pos,
        {
            proof {
                reveal_pieces();
            }
            assert(ps[pos as int] == self.output@[pos as int]);
            if str_eq(self.output[pos], NEWLINE) {
                break;
            }
            self.output.remove(pos);
            pos = pos - 1;
            assert(self.output@ =~= old(self).output@.subrange(0, pos + 1));
        }
        proof {
            if old(self).wf() {
                assert(self.pieces() =~= old(self).pieces().subrange(0, pos + 1));
                lemma_no_excess_prefix(old(self).pieces(), pos + 1);
            }
            if spec_prev_line_was_whitespace(ps) {
                lemma_blank_tail(ps, ps.len() - 1, true);
                lemma_fixed_pieces_not_newline();
                reveal_pieces();
            }
            if ps.len() > 0 && spec_on_whitespace_line(ps) {
                lemma_line_tail(ps, ps.len() - 1);
                lemma_fixed_pieces_not_newline();
                reveal_pieces();
            }
        }
    }

    /// Removes trailing spaces, tabs and newlines (never the first piece);
    /// gives how many newlines it removed.
    fn backspace_whitespace(&mut self) -> (r: usize)
        ensures
            old(self).wf() ==> final(self).wf(),
            final(self).only_output_changed(old(self)),
            old(self).output@.len() == 0 ==> final(self).output@ == old(self).output@ && r == 0,
            old(self).output@.len() > 0 ==> {
                let keep = last_non_ws_at_or_before(old(self).output@, old(self).output@.len() - 1) + 1;
                &&& final(self).output@ == old(self).output@.subrange(0, keep)
                &&& r == newlines_in(old(self).output@, keep, old(self).output@.len() as int)
            },
            keeps_words(old(self).output@, final(self).output@),
    {
        let ghost ps = self.output@;
        let ghost len = ps.len() as int;
        let mut pos = self.output.len();
        if pos == 0 {
            return 0;
        };
        let mut newline_number: usize = 0;
        pos = pos - 1;
        proof {
            reveal_pieces();
        }
        while pos != 0
            invariant
                self.only_output_changed(old(self)),
                pos < self.output.len(),
                ps == old(self).output@,
                len == ps.len(),
                pos < len <= usize::MAX,
                self.output@ == old(self).output@.subrange(0, pos + 1),
                last_non_ws_at_or_before(ps, pos as int) == last_non_ws_at_or_before(ps, len - 1),
                newline_number == newlines_in(ps, pos + 1, len),
                newline_number <= len - pos - 1,
            ensures
                self.only_output_changed(old(self)),
                self.output@ == old(self).output@.subrange(0, pos + 1),
                last_non_ws_at_or_before(ps, len - 1) == pos,
                newline_number == newlines_in(ps, pos + 1, len),
            decreases pos,
        {
            proof {
                reveal_pieces();
            }
            let piece = self.output[pos];
            assert(ps[pos as int] == piece);
            if str_eq(piece, NEWLINE) {
                self.output.remove(pos);
                proof {
                    lemma_newlines_in_front(ps, pos as int, len);
                }
                pos = pos - 1;
                newline_number = newline_number + 1;
            } else if str_eq(piece, TAB) || str_eq(piece, SPACE) {
                self.output.remove(pos);
                proof {
                    lemma_newlines_in_front(ps, pos as int, len);
                }
                pos = pos - 1;
            } else {
                break;
            }
            assert(self.output@ =~= old(self).output@.subrange(0, pos + 1));
        }
        proof {
            if old(self).wf() {
                assert(self.pieces() =~= old(self).pieces().subrange(0, pos + 1));
                lemma_no_excess_prefix(old(self).pieces(), pos + 1);
            }
            lemma_ws_tail(ps, len - 1);
        }
        newline_number
    }

    /// Removes a space printed last, unless the line holds nothing but whitespace.
    fn backspace(&mut self)
        ensures
            old(self).wf() ==> final(self).wf(),
            final(self).only_output_changed(old(self)),
            final(self).output@ == if old(self).output@.len() != 0 && !spec_on_whitespace_line(old(self).output@)
                && old(self).output@.last()@ == space_text() {
                old(self).output@.drop_last()
            } else {
                old(self).output@
            },
            keeps_words(old(self).output@, final(self).output@),
    {
        let pos = self.output.len();
        proof {
            reveal_pieces();
        }
        if pos != 0 && self.on_whitespace_line() == false && str_eq(self.output[pos - 1], SPACE) {
            self.output.remove(pos - 1);
            assert(self.output@ =~= old(self).output@.drop_last());
            proof {
                if old(self).wf() {
                    assert(self.pieces() =~= old(self).pieces().subrange(0, pos - 1));
                    lemma_no_excess_prefix(old(self).pieces(), pos - 1);
                }
            }
        }
    }

    /// Prints a space unless the last piece is a space, tab or newline.
    /// Opens a block in K&R style: after code on the current line, the brace
    /// goes on that line after one space; on a line that holds nothing but
    /// indentation, the brace comes alone.
    fn open_brace(&mut self)
        ensures
            old(self).wf() ==> final(self).wf(),
            final(self).only_output_changed(old(self)),
            final(self).pieces() == (if spec_on_whitespace_line(old(self).output@) {
                old(self).pieces()
            } else {
                with_space(old(self).pieces())
            }).push(LBRACE@),
            keeps_words(old(self).output@, final(self).output@),
    {
        if self.on_whitespace_line() == false {
            self.ensure_space();
        }
        let ghost mid = self.output@;
        proof {
            lemma_fixed_pieces_not_newline();
        }
        self.print(LBRACE, false);
        proof {
            reveal_pieces();
            assert(texts(self.output@) =~= texts(mid).push(LBRACE@));
        }
    }

    fn ensure_space(&mut self)
        ensures
            old(self).wf() ==> final(self).wf(),
            final(self).only_output_changed(old(self)),
            final(self).output@ == if old(self).output@.len() > 0 && is_ws_piece(old(self).output@.last()@) {
                old(self).output@
            } else {
                old(self).output@.push(SPACE)
            },
            final(self).pieces() == with_space(old(self).pieces()),
            keeps_words(old(self).output@, final(self).output@),
    {
        proof {
            reveal_pieces();
            lemma_fixed_pieces_not_newline();
            if self.output@.len() > 0 {
                assert(self.pieces().last() == self.output@.last()@);
            }
        }
        if let Some(last_entry) = self.last_entry() {
            if str_eq(last_entry, SPACE) || str_eq(last_entry, TAB) || str_eq(last_entry, NEWLINE) {
                return;
            }
        }
        let ghost p0 = self.pieces();
        self.print(SPACE, false);
        proof {
            assert(self.pieces() =~= p0.push(space_text()));
        }
    }

    fn last_entry(&self) -> (r: Option<&'a str>)
        ensures
            r == if self.output@.len() != 0 { Some(self.output@.last()) } else { None::<&'a str> },
    {
        let pos = self.output.len();
        if pos != 0 {
            Some(self.output[pos - 1])
        } else {
            None
        }
    }

    /// The indentation level after `indentation_move`; it does not go below zero.
    fn check_indentation(&self, indentation_move: IndentationMove) -> (r: usize)
        ensures
            r == next_indentation(self.indentation as int, indentation_move),
    {
        match indentation_move {
            IndentationMove::Right => if self.indentation < usize::MAX {
                self.indentation + 1
            } else {
                self.indentation
            },
            IndentationMove::Stay => self.indentation,
            IndentationMove::Left => if self.indentation > 0 {
                self.indentation - 1
            } else {
                0
            },
        }
    }

    fn set_indentation(&mut self, indentation_move: IndentationMove)
        ensures
            *final(self) == (Printer {
                indentation: next_indentation(old(self).indentation as int, indentation_move) as usize,
                ..*old(self)
            }),
    {
        self.indentation = self.check_indentation(indentation_move);
    }

    /// Prints the current indentation: spaces or tabs, as configured.
    fn print_indentation_final(&mut self)
        ensures
            old(self).wf() ==> final(self).wf(),
            final(self).only_output_changed(old(self)),
            final(self).output@ == old(self).output@ + indentation_pieces(
                old(self).indentation as nat,
                *old(self).lang_config,
            ),
            keeps_words(old(self).output@, final(self).output@),
    {
        let mut i: usize = 0;
        while i < self.indentation
            invariant
                self.only_output_changed(old(self)),
                old(self).wf() ==> self.wf(),
                i <= self.indentation,
                self.output@ == old(self).output@ + indentation_pieces(i as nat, *self.lang_config),
            decreases self.indentation - i,
        {
            if self.lang_config.use_spaces {
                let mut j: usize = 0;
                while j < self.lang_config.space_size
                    invariant
                        self.only_output_changed(old(self)),
                        old(self).wf() ==> self.wf(),
                        j <= self.lang_config.space_size,
                        i < self.indentation,
                        self.output@ == old(self).output@ + indentation_pieces(i as nat, *self.lang_config)
                            + spaces(j as nat),
                    decreases self.lang_config.space_size - j,
                {
                    proof {
                        lemma_fixed_pieces_not_newline();
                    }
                    self.print(SPACE, false);
                    j = j + 1;
                }
            } else {
                proof {
                    lemma_fixed_pieces_not_newline();
                }
                self.print(TAB, false);
            }
            proof {
                assert(self.output@ =~= old(self).output@ + indentation_pieces((i + 1) as nat, *self.lang_config));
            }
            i = i + 1;
        }
    }

    fn print_indentation(&mut self, indentation_move: IndentationMove)
        ensures
            old(self).wf() ==> final(self).wf(),
            final(self).indentation == next_indentation(old(self).indentation as int, indentation_move),
            final(self).output@ == old(self).output@ + indentation_pieces(
                final(self).indentation as nat,
                *old(self).lang_config,
            ),
            *final(self) == (Printer { output: final(self).output, indentation: final(self).indentation, ..*old(self) }),
            keeps_words(old(self).output@, final(self).output@),
    {
        self.set_indentation(indentation_move);
        self.print_indentation_final();
    }

    fn print_indentation_raw(&mut self, indent_size: usize)
        ensures
            old(self).wf() ==> final(self).wf(),
            final(self).indentation == indent_size,
            final(self).output@ == old(self).output@ + indentation_pieces(indent_size as nat, *old(self).lang_config),
            *final(self) == (Printer { output: final(self).output, indentation: indent_size, ..*old(self) }),
            keeps_words(old(self).output@, final(self).output@),
    {
        self.indentation = indent_size;
        self.print_indentation_final();
    }

    /// Starts a new line with the indentation after `indentation_move` (nothing
    /// when nothing is printed yet or the last line is already blank).
    fn print_newline(&mut self, indentation_move: IndentationMove)
        ensures
            old(self).wf() ==> final(self).wf(),
            final(self).lang_config == old(self).lang_config,
            final(self).newline_printed(old(self), indentation_move),
            keeps_words(old(self).output@, final(self).output@),
    {
        if self.output.len() == 0 || self.prev_line_was_whitespace() {
            return;
        }
        self.backspace();
        let ghost mid = self.pieces();
        proof {
            lemma_newline_allowed(old(self).output@, self.output@);
        }
        self.print(NEWLINE, false);
        proof {
            lemma_fixed_pieces_not_newline();
            if old(self).wf() {
                assert(self.pieces() =~= mid.push(newline_text()));
                lemma_no_excess_push(mid, newline_text());
            }
        }
        self.print_indentation(indentation_move);
    }

    /// Starts a new line unless the last piece is a newline.
    fn ensure_newline(&mut self, indentation_move: IndentationMove)
        ensures
            old(self).wf() ==> final(self).wf(),
            final(self).lang_config == old(self).lang_config,
            old(self).output@.len() > 0 && old(self).output@.last()@ == newline_text() ==> *final(self)
                == *old(self),
            !(old(self).output@.len() > 0 && old(self).output@.last()@ == newline_text())
                ==> final(self).newline_printed(old(self), indentation_move),
            keeps_words(old(self).output@, final(self).output@),
    {
        proof {
            reveal_pieces();
        }
        if let Some(last_entry) = self.last_entry() {
            if str_eq(last_entry, NEWLINE) {
                return;
            }
        }
        self.print_newline(indentation_move);
    }

    /// Whether every token is a newline.
    fn only_newlines(vec: &'a Vec<Token<'a>>) -> (r: bool)
        ensures
            r == (forall|i: int| 0 <= i < vec@.len() ==> (#[trigger] vec@[i]).token_type is Newline),
    {
        let mut i: usize = 0;
        while i < vec.len()
            invariant
                i <= vec.len(),
                forall|j: int| 0 <= j < i ==> (#[trigger] vec@[j]).token_type is Newline,
            decreases vec.len() - i,
        {
            if let TokenType::Newline(_) = vec[i].token_type {
                i = i + 1;
                continue;
            }
            return false;
        }
        true
    }

    /// Prints a semicolon (after taking back a space) when `do_it`.
    fn print_semicolon(&mut self, do_it: bool)
        ensures
            old(self).wf() ==> final(self).wf(),
            final(self).lang_config == old(self).lang_config,
            !do_it ==> *final(self) == *old(self),
            do_it ==> final(self).only_output_changed(old(self)),
            do_it ==> final(self).output@ == backspaced(old(self).output@).push(SEMICOLON).push(SPACE),
            keeps_words(old(self).output@, final(self).output@),
    {
        if do_it {
            self.backspace();
            proof {
                lemma_fixed_pieces_not_newline();
            }
            self.print(SEMICOLON, true);
        }
    }

    /// Prints a semicolon, and a newline when the statement had none; gives
    /// whether it printed the newline.
    fn print_semicolon_and_newline(&mut self, do_it: bool, indentation_move: IndentationMove) -> (r: bool)
        ensures
            old(self).wf() ==> final(self).wf(),
            final(self).lang_config == old(self).lang_config,
            r == !do_it,
            do_it ==> final(self).only_output_changed(old(self)),
            do_it ==> final(self).output@ == backspaced(old(self).output@).push(SEMICOLON).push(SPACE),
            keeps_words(old(self).output@, final(self).output@),
    {
        if do_it {
            self.print_semicolon(true);
            false
        } else {
            self.print_semicolon(true);
            self.print_newline(indentation_move);
            true
        }
    }

    /// Remembers the indentation, for `rewind_user_indentation`.
    fn allow_user_indentation(&mut self)
        ensures
            final(self).lang_config == old(self).lang_config,
            final(self).user_indentation_instructions@ == old(self).user_indentation_instructions@.push(
                old(self).indentation,
            ),
            final(self).output@ == old(self).output@,
            final(self).indentation == old(self).indentation,
    {
        self.user_indentation_instructions.push(self.indentation);
    }

    /// Goes back to the indentation remembered last.
    fn rewind_user_indentation(&mut self)
        ensures
            final(self).lang_config == old(self).lang_config,
            final(self).output@ == old(self).output@,
            old(self).user_indentation_instructions@.len() > 0 ==> {
                &&& final(self).indentation == old(self).user_indentation_instructions@.last()
                &&& final(self).user_indentation_instructions@
                    == old(self).user_indentation_instructions@.drop_last()
            },
    {
        if let Some(indentation) = self.user_indentation_instructions.pop() {
            self.indentation = indentation;
        }
    }

    /// Prints a run of newlines and comments as `instructions` say; gives
    /// whether it started a new line.
    fn print_comments_and_newlines(
        &mut self,
        vec: &'a Option<Vec<Token<'a>>>,
        instructions: CommentAndNewlinesInstruction,
    ) -> (did_move: bool)
        ensures
            old(self).wf() && run_printable(*vec) ==> final(self).wf(),
            final(self).lang_config == old(self).lang_config,
            vec is None ==> !did_move && *final(self) == *old(self),
            (vec matches Some(v) && (v@.len() == 0 || (!instructions.respect_user_newline && forall|i: int|
                0 <= i < v@.len() ==> (#[trigger] v@[i]).token_type is Newline))) ==> !did_move && *final(self)
                == *old(self),
            did_move ==> (vec matches Some(v) && exists|i: int|
                0 <= i < v@.len() && (#[trigger] v@[i]).token_type is Newline),
            vec matches Some(v) ==> (v@.len() > 0 && !(!instructions.respect_user_newline && forall|i: int|
                0 <= i < v@.len() ==> (#[trigger] v@[i]).token_type is Newline) && instructions.leading_newlines
                != LeadingNewlines::Zero ==> (did_move <==> exists|i: int|
                0 <= i < v@.len() && (#[trigger] v@[i]).token_type is Newline)),
            vec matches Some(v) ==> ((forall|i: int| 0 <= i < v@.len() ==> !((#[trigger] v@[i]).token_type is Newline))
                ==> final(self).pieces() == run_pieces(old(self).pieces(), v@)),
            keeps_words(old(self).output@, final(self).output@),
            vec matches Some(v) ==> forall|i: int|
                0 <= i < v@.len() && ((#[trigger] v@[i]).token_type is Comment || v@[i].token_type is MultilineComment)
                    && !is_ws_piece(v@[i].token_type.spec_name()) ==> printed_from(
                    final(self).pieces(),
                    0,
                    v@[i].token_type.spec_name(),
                ),
    {
        match vec {
            None => false,
            Some(vec) => {
                if vec.len() == 0 || (Printer::only_newlines(vec) && instructions.respect_user_newline == false) {
                    return false;
                }
                let mut did_move = false;
                let mut ignore_newline = !(instructions.leading_newlines == LeadingNewlines::All);
                let mut i: usize = 0;
                let ghost flat = forall|j: int| 0 <= j < vec@.len() ==> !((#[trigger] vec@[j]).token_type is Newline);
                let ghost start = self.pieces();
                proof {
                    assert(vec@.subrange(0, 0) =~= Seq::<Token<'a>>::empty());
                }
                while i < vec.len()
                    invariant
                        flat == (forall|j: int| 0 <= j < vec@.len() ==> !((#[trigger] vec@[j]).token_type is Newline)),
                        start == old(self).pieces(),
                        keeps_words(old(self).output@, self.output@),
                        forall|j: int|
                            0 <= j < i && ((#[trigger] vec@[j]).token_type is Comment || vec@[j].token_type is MultilineComment)
                                && !is_ws_piece(vec@[j].token_type.spec_name()) ==> printed_from(
                                self.pieces(),
                                0,
                                vec@[j].token_type.spec_name(),
                            ),
                        flat ==> self.pieces() == run_pieces(start, vec@.subrange(0, i as int)),
                        self.lang_config == old(self).lang_config,
                        old(self).wf() && run_printable(Some(*vec)) ==> self.wf(),
                        i <= vec.len(),
                        did_move ==> exists|j: int| 0 <= j < i && (#[trigger] vec@[j]).token_type is Newline,
                        instructions.leading_newlines != LeadingNewlines::Zero ==> (did_move <==> exists|j: int|
                            0 <= j < i && (#[trigger] vec@[j]).token_type is Newline),
                    decreases vec.len() - i,
                {
                    let this_one = &vec[i];
                    let ghost at = i as int;
                    let ghost before_iter = self.output@;
                    assert(*this_one == vec@[at]);
                    i = i + 1;
                    match this_one.token_type {
                        TokenType::Newline(user_indentation) => {
                            assert(vec@[at].token_type is Newline);
                            if ignore_newline {
                                while i < vec.len()
                                    invariant
                                        at < i <= vec.len(),
                                        forall|m: int| at < m < i ==> (#[trigger] vec@[m]).token_type is Newline,
                                    decreases vec.len() - i,
                                {
                                    if let TokenType::Newline(_) = vec[i].token_type {
                                        i = i + 1;
                                    } else {
                                        break;
                                    }
                                }
                                ignore_newline = false;
                                if instructions.leading_newlines == LeadingNewlines::Zero {
                                    continue;
                                }
                            }
                            if did_move {
                                self.print_newline(IndentationMove::Stay);
                            } else {
                                did_move = true;
                                if self.user_indentation_instructions.len() > 0
                                    && instructions.respect_user_newline
                                    && user_indentation >= self.check_indentation(instructions.indentation_move)
                                {
                                    if self.prev_line_was_whitespace() {
                                        self.backspace_till_newline();
                                    } else {
                                        let ghost before = self.output@;
                                        self.backspace();
                                        let ghost mid = self.pieces();
                                        proof {
                                            lemma_newline_allowed(before, self.output@);
                                        }
                                        self.print(NEWLINE, false);
                                        proof {
                                            lemma_fixed_pieces_not_newline();
                                            if old(self).wf() && run_printable(Some(*vec)) {
                                                assert(self.pieces() =~= mid.push(newline_text()));
                                                lemma_no_excess_push(mid, newline_text());
                                            }
                                        }
                                    }
                                    self.print_indentation_raw(user_indentation);
                                } else {
                                    self.print_newline(instructions.indentation_move);
                                }
                            }
                        },
                        TokenType::Comment(_) | TokenType::MultilineComment(_) => {
                            if instructions.trailing_comment {
                                self.do_not_need_semicolon.push(());
                            }
                            self.ensure_space();
                            let ghost n = self.output@.len() as int;
                            self.print_token(this_one, false);
                            proof {
                                assert(texts(self.output@)[n] == self.output@[n]@);
                                assert(self.pieces()[n] == this_one.token_type.spec_name());
                            }
                            ignore_newline = false;
                        },
                        TokenType::RegionEnd(_) | TokenType::RegionBegin(_) | TokenType::Then => {
                            if instructions.trailing_comment {
                                self.do_not_need_semicolon.push(());
                            }
                            self.ensure_space();
                            self.print_token(this_one, true);
                            ignore_newline = false;
                        },
                        _ => {
                            if instructions.trailing_comment {
                                self.do_not_need_semicolon.push(());
                            }
                            self.print_token(this_one, true);
                        },
                    }
                    proof {
                        if flat {
                            let sub = vec@.subrange(0, i as int);
                            assert(sub.drop_last() =~= vec@.subrange(0, at));
                            assert(sub.last() == vec@[at]);
                        }
                        assert forall|j: int|
                            0 <= j < i && ((#[trigger] vec@[j]).token_type is Comment || vec@[j].token_type
                                is MultilineComment) && !is_ws_piece(vec@[j].token_type.spec_name()) implies printed_from(
                            self.pieces(),
                            0,
                            vec@[j].token_type.spec_name(),
                        ) by {
                            if j < at {
                                lemma_printed_kept(before_iter, self.output@, 0, vec@[j].token_type.spec_name());
                            }
                        }
                    }
                }
                proof {
                    assert(vec@.subrange(0, i as int) =~= vec@);
                }
                did_move
            },
        }
    }

    /// Prints items with `delimiter` between them (and after the last one
    /// when the source has it there).
    fn print_delimited_lines(
        &mut self,
        delimited_lines: &'a DelimitedLines<'a, ExprBox<'a>>,
        delimiter: &'static str,
        force_newline_between: bool,
        force_newline_at_end: bool,
    )
        ensures
            old(self).wf() && lines_printable(*delimited_lines) && delimiter@ != newline_text() ==> final(self).wf(),
            final(self).lang_config == old(self).lang_config,
            plain_lines(delimited_lines.lines@) && !force_newline_between && !force_newline_at_end ==> {
                let all = words_with_delimiters(delimited_lines.lines@, delimiter@);
                final(self).pieces() == old(self).pieces() + if delimited_lines.has_end_delimiter
                    || delimited_lines.lines@.len() == 0 {
                    all
                } else {
                    all.subrange(0, all.len() - 2)
                }
            },
            plain_lines(delimited_lines.lines@) && !force_newline_between && !force_newline_at_end ==> (
            final(self).indentation == old(self).indentation && final(self).user_indentation_instructions@ == old(
                self,
            ).user_indentation_instructions@),
            keeps_words(old(self).output@, final(self).output@),
        decreases delimited_lines, 0nat,
    {
        let ghost ok = old(self).wf() && lines_printable(*delimited_lines) && delimiter@ != newline_text();
        let ghost plain = plain_lines(delimited_lines.lines@) && !force_newline_between && !force_newline_at_end;
        let ghost start = self.pieces();
        let lines = &delimited_lines.lines;
        let mut i: usize = 0;
        proof {
            assert(delimited_lines.lines@.subrange(0, 0) =~= Seq::<DelimitedLine<'a, ExprBox<'a>>>::empty());
            assert(start + words_with_delimiters(delimited_lines.lines@.subrange(0, 0), delimiter@) =~= start);
        }
        while i < lines.len()
            invariant
                self.lang_config == old(self).lang_config,
                keeps_words(old(self).output@, self.output@),
                plain ==> plain_lines(delimited_lines.lines@) && !force_newline_between && !force_newline_at_end,
                plain ==> self.indentation == old(self).indentation && self.user_indentation_instructions@ == old(
                    self,
                ).user_indentation_instructions@,
                i == 0 ==> self.pieces() == start,
                plain && i < lines.len() ==> self.pieces() == start + words_with_delimiters(
                    delimited_lines.lines@.subrange(0, i as int),
                    delimiter@,
                ),
                plain && i == lines.len() && i > 0 ==> {
                    let all = words_with_delimiters(delimited_lines.lines@, delimiter@);
                    self.pieces() == start + if delimited_lines.has_end_delimiter {
                        all
                    } else {
                        all.subrange(0, all.len() - 2)
                    }
                },
                ok ==> self.wf(),
                ok ==> lines_printable(*delimited_lines) && delimiter@ != newline_text(),
                i <= lines.len(),
                lines == delimited_lines.lines,
            decreases lines.len() - i,
        {
            let delimited_line = &lines[i];
            assert(*delimited_line == delimited_lines.lines@[i as int]);
            proof {
                assert(decreases_to!(delimited_lines => delimited_lines.lines));
                assert(decreases_to!(delimited_lines.lines => delimited_lines.lines@));
                assert(decreases_to!(delimited_lines.lines@ => delimited_lines.lines@[i as int]));
                assert(decreases_to!(delimited_lines.lines@[i as int] => delimited_lines.lines@[i as int].expr));
            }
            let ghost before = self.pieces();
            let ghost prefix = delimited_lines.lines@.subrange(0, i as int);
            let ghost w = simple_word(delimited_line.expr)->0;
            self.print_expr(&delimited_line.expr);
            let ghost mid = self.output@;
            self.backspace();
            proof {
                if plain {
                    assert(simple_word(delimited_lines.lines@[i as int].expr) matches Some(w) && !is_ws_piece(w));
                    reveal_pieces();
                    reveal_with_fuel(whitespace_back_to_newline, 2);
                    assert(texts(mid) == before.push(w).push(space_text()));
                    assert(mid.len() >= 2);
                    assert(mid[mid.len() - 1]@ == texts(mid)[mid.len() - 1]);
                    assert(mid[mid.len() - 2]@ == texts(mid)[mid.len() - 2]);
                    assert(!whitespace_back_to_newline(mid, mid.len() - 1));
                    assert(self.output@ == mid.drop_last());
                    assert forall|k: int| 0 <= k < mid.len() - 1 implies #[trigger] texts(mid.drop_last())[k]
                        == before.push(w)[k] by {
                        assert(texts(mid)[k] == mid[k]@);
                        assert(before.push(w).push(space_text())[k] == before.push(w)[k]);
                    }
                    assert(self.pieces() =~= before.push(w));
                }
            }
            i = i + 1;
            let ghost after_word = self.pieces();
            let at_end = if i < lines.len() {
                self.print(delimiter, true);
                false
            } else {
                if delimited_lines.has_end_delimiter {
                    self.print(delimiter, true);
                }
                true
            };
            proof {
                if plain {
                    reveal_pieces();
                    let next = delimited_lines.lines@.subrange(0, i as int);
                    assert(next.drop_last() =~= prefix);
                    assert(next.last() == delimited_lines.lines@[i - 1]);
                    assert(words_with_delimiters(next, delimiter@) == words_with_delimiters(prefix, delimiter@) + seq![
                        w,
                        delimiter@,
                        space_text(),
                    ]);
                    if i < lines.len() || delimited_lines.has_end_delimiter {
                        assert(self.pieces() =~= after_word.push(delimiter@).push(space_text()));
                        assert(self.pieces() =~= start + words_with_delimiters(next, delimiter@));
                    } else {
                        lemma_words_with_delimiters_len(next, delimiter@);
                        let all = words_with_delimiters(next, delimiter@);
                        assert(all.subrange(0, all.len() - 2) =~= words_with_delimiters(prefix, delimiter@).push(w));
                        assert(self.pieces() =~= start + all.subrange(0, all.len() - 2));
                    }
                    if i == lines.len() {
                        assert(next =~= delimited_lines.lines@);
                    }
                }
            }
            if delimited_line.trailing_comment.is_some() {
                let did_newlines = self.print_comments_and_newlines(
                    &delimited_line.trailing_comment,
                    CommentAndNewlinesInstruction::new_respect_users(IndentationMove::Stay, LeadingNewlines::All),
                );
                if did_newlines == false && force_newline_between {
                    self.print_newline(IndentationMove::Stay);
                }
            } else {
                if at_end {
                    if force_newline_at_end {
                        self.print_newline(IndentationMove::Stay);
                    }
                } else {
                    if force_newline_between {
                        self.print_newline(IndentationMove::Stay);
                    }
                }
            }
        }
        proof {
            if plain && lines.len() == 0 {
                assert(words_with_delimiters(delimited_lines.lines@, delimiter@) =~= Seq::<Seq<char>>::empty());
                assert(self.pieces() =~= start + words_with_delimiters(delimited_lines.lines@, delimiter@));
            }
        }
    }

    /// Prints a call: the name, the arguments between parentheses.
    /// Prints a grouping: the parenthesised expressions.
    fn print_grouping(&mut self, expr: &'a ExprBox<'a>)
        requires
            expr.expr is Grouping,
        ensures
            old(self).wf() && expr_printable(*expr) ==> final(self).wf(),
            final(self).lang_config == old(self).lang_config,
            flat_pieces(*expr) matches Some(p) ==> final(self).pieces() == old(self).pieces() + p,
            flat_pieces(*expr) is Some ==> final(self).indentation == old(self).indentation
                && final(self).user_indentation_instructions@ == old(self).user_indentation_instructions@,
            keeps_words(old(self).output@, final(self).output@),
        decreases expr, 0nat,
    {
        let ghost ok = old(self).wf() && expr_printable(*expr);
        proof {
            lemma_fixed_pieces_not_newline();
            lemma_words_not_newline();
        }
        let Expr::Grouping { expressions, comments_and_newlines_after_lparen, comments_and_newlines_after_rparen } = &expr.expr else {
            return;
        };
        let ghost q0 = self.pieces();
        self.print(LPAREN, false);
        let did_move = self.print_comments_and_newlines(
            comments_and_newlines_after_lparen,
            CommentAndNewlinesInstruction::new_respect_users(IndentationMove::Right, LeadingNewlines::One),
        );
        proof {
            reveal_pieces();
        }
        let ghost q1 = self.pieces();
        let ghost flat = flat_pieces(*expr) is Some;
        let ghost ind0 = self.indentation;
        let ghost users0 = self.user_indentation_instructions@;
        let mut i: usize = 0;
        while i < expressions.len()
            invariant
                flat ==> flat_pieces(*expr) is Some && expressions@.len() == 1 && !did_move,
                flat ==> q1 == q0.push(LPAREN@),
                flat && i == 0 ==> self.pieces() == q1,
                flat && i == 1 ==> self.pieces() == q1 + flat_pieces(expressions@[0])->0,
                flat ==> self.indentation == ind0 && self.user_indentation_instructions@ == users0,
                flat ==> ind0 == old(self).indentation && users0 == old(self).user_indentation_instructions@,
                self.lang_config == old(self).lang_config,
        keeps_words(old(self).output@, self.output@),
                keeps_words(old(self).output@, self.output@),
                ok ==> self.wf(),
                ok ==> expr_printable(*expr),
                i <= expressions.len(),
                expr.expr matches Expr::Grouping { expressions: es, .. } && es == expressions,
            decreases expressions.len() - i,
        {
            proof {
                assert(decreases_to!(expr => expressions));
                assert(decreases_to!(expressions => expressions@));
                assert(decreases_to!(expressions@ => expressions@[i as int]));
            }
            self.print_expr(&expressions[i]);
            i = i + 1;
        }
        let ghost mid = self.output@;
        self.backspace();
        proof {
            if flat {
                lemma_flat_ends_with_space(expressions@[0]);
                reveal_pieces();
                lemma_backspace_after_word(q1, flat_pieces(expressions@[0])->0, mid);
            }
        }
        if did_move {
            if self.on_whitespace_line() {
                self.backspace_till_newline();
                self.print_indentation(IndentationMove::Left);
            } else {
                self.print_newline(IndentationMove::Left);
            }
        }
        let ghost q2 = self.pieces();
        self.print(RPAREN, true);
        proof {
            reveal_pieces();
            assert(self.pieces() =~= q2.push(RPAREN@).push(space_text()));
        }
        let ghost q3 = self.pieces();
        let instructions = match self.group_instructions.pop() {
            Some(instruction) => instruction,
            None => GroupInstruction::default(),
        };
        self.print_comments_and_newlines(
            comments_and_newlines_after_rparen,
            CommentAndNewlinesInstruction {
                indentation_move: instructions.force_indentation(),
                leading_newlines: instructions.force_leading_newlines(),
                respect_user_newline: instructions.force_respect(),
                trailing_comment: false,
            },
        );
        proof {
            if flat {
                assert(self.pieces() =~= q0 + flat_pieces(*expr)->0);
            }
        }
    }

    /// Prints an array literal: its elements between brackets.
    fn print_array_literal(&mut self, expr: &'a ExprBox<'a>)
        requires
            expr.expr is ArrayLiteral,
        ensures
            old(self).wf() && expr_printable(*expr) ==> final(self).wf(),
            final(self).lang_config == old(self).lang_config,
            array_pieces(*expr) matches Some(p) ==> final(self).pieces() == old(self).pieces() + p,
            keeps_words(old(self).output@, final(self).output@),
        decreases expr, 0nat,
    {
        let ghost ok = old(self).wf() && expr_printable(*expr);
        proof {
            lemma_fixed_pieces_not_newline();
            lemma_words_not_newline();
        }
        let Expr::ArrayLiteral { comments_and_newlines_after_lbracket, arguments } = &expr.expr else {
            return;
        };
        let ghost q0 = self.pieces();
        self.print("[", false);
        proof {
            reveal_pieces();
        }
        let ghost q1 = self.pieces();
        let did_move = self.print_comments_and_newlines(
            comments_and_newlines_after_lbracket,
            CommentAndNewlinesInstruction::new_respect_users(IndentationMove::Right, LeadingNewlines::One),
        );
        proof {
            assert(decreases_to!(expr => expr.expr));
            assert(decreases_to!(expr.expr => arguments));
        }
        self.print_delimited_lines(arguments, COMMA, false, false);
        if did_move {
            self.print_newline(IndentationMove::Left);
        }
        let ghost q2 = self.pieces();
        self.print("]", false);
        proof {
            reveal_pieces();
            assert(self.pieces() =~= q2.push("]"@));
            if array_pieces(*expr) is Some {
                assert(q1 == q0.push("["@));
                assert(self.pieces() =~= q0 + array_pieces(*expr)->0);
            }
        }
    }

    /// Prints a member access: the object, a dot and the member.
    fn print_dot_access(&mut self, expr: &'a ExprBox<'a>)
        requires
            expr.expr is DotAccess,
        ensures
            old(self).wf() && expr_printable(*expr) ==> final(self).wf(),
            final(self).lang_config == old(self).lang_config,
            flat_pieces(*expr) matches Some(p) ==> final(self).pieces() == old(self).pieces() + p,
            flat_pieces(*expr) is Some ==> final(self).indentation == old(self).indentation
                && final(self).user_indentation_instructions@ == old(self).user_indentation_instructions@,
            keeps_words(old(self).output@, final(self).output@),
        decreases expr, 0nat,
    {
        let ghost ok = old(self).wf() && expr_printable(*expr);
        proof {
            lemma_fixed_pieces_not_newline();
            lemma_words_not_newline();
        }
        let Expr::DotAccess { object_name, comments_between, instance_variable } = &expr.expr else {
            return;
        };
        let ghost q0 = self.pieces();
        self.print_expr(object_name);
        let ghost mid = self.output@;
        self.backspace();
        proof {
            if flat_pieces(*expr) is Some {
                lemma_flat_ends_with_space(*object_name);
                reveal_pieces();
                lemma_backspace_after_word(q0, flat_pieces(*object_name)->0, mid);
            }
        }
        let ghost q1 = self.pieces();
        self.print(".", false);
        proof {
            reveal_pieces();
            assert(self.pieces() =~= q1.push("."@));
        }
        self.allow_user_indentation();
        let mut can_unlock = false;
        let indentation = if self.do_dot_indent {
            can_unlock = true;
            self.do_dot_indent = false;
            IndentationMove::Right
        } else {
            IndentationMove::Stay
        };
        self.print_comments_and_newlines(
            comments_between,
            CommentAndNewlinesInstruction::new_respect_users(indentation, LeadingNewlines::One),
        );
        self.print_expr(instance_variable);
        self.rewind_user_indentation();
        if can_unlock && self.do_dot_indent == false {
            self.do_dot_indent = true;
        }
        proof {
            if flat_pieces(*expr) is Some {
                assert(self.pieces() =~= q0 + flat_pieces(*expr)->0);
            }
        }
    }

    /// Prints a conditional expression: the condition, a question mark, the
    /// first choice, a colon and the second choice.
    fn print_ternary(&mut self, expr: &'a ExprBox<'a>)
        requires
            expr.expr is Ternary,
        ensures
            old(self).wf() && expr_printable(*expr) ==> final(self).wf(),
            final(self).lang_config == old(self).lang_config,
            flat_pieces(*expr) matches Some(p) ==> final(self).pieces() == old(self).pieces() + p,
            flat_pieces(*expr) is Some ==> final(self).indentation == old(self).indentation
                && final(self).user_indentation_instructions@ == old(self).user_indentation_instructions@,
            keeps_words(old(self).output@, final(self).output@),
        decreases expr, 0nat,
    {
        let ghost ok = old(self).wf() && expr_printable(*expr);
        proof {
            lemma_fixed_pieces_not_newline();
            lemma_words_not_newline();
        }
        let Expr::Ternary { conditional, comments_and_newlines_after_q, left, comments_and_newlines_after_colon, right } = &expr.expr else {
            return;
        };
        let ghost q0 = self.pieces();
        self.print_expr(conditional);
        let ghost q1 = self.pieces();
        self.print("?", true);
        proof {
            reveal_pieces();
            assert(self.pieces() =~= q1 + seq!["?"@, space_text()]);
        }
        self.allow_user_indentation();
        self.print_comments_and_newlines(
            comments_and_newlines_after_q,
            CommentAndNewlinesInstruction::new(IndentationMove::Right, LeadingNewlines::All),
        );
        let ghost q2 = self.pieces();
        self.print_expr(left);
        let ghost q3 = self.pieces();
        self.print(":", true);
        proof {
            reveal_pieces();
            assert(self.pieces() =~= q3 + seq![":"@, space_text()]);
        }
        let did_move = self.print_comments_and_newlines(
            comments_and_newlines_after_colon,
            CommentAndNewlinesInstruction::new(IndentationMove::Right, LeadingNewlines::One),
        );
        let ghost q4 = self.pieces();
        self.print_expr(right);
        self.rewind_user_indentation();
        if did_move {
            self.set_indentation(IndentationMove::Left);
        }
        proof {
            if flat_pieces(*expr) is Some {
                assert(self.pieces() =~= q0 + flat_pieces(*expr)->0);
            }
        }
    }

    fn print_call(&mut self, expr: &'a ExprBox<'a>)
        requires
            expr.expr is Call,
        ensures
            old(self).wf() && expr_printable(*expr) ==> final(self).wf(),
            final(self).lang_config == old(self).lang_config,
            flat_pieces(*expr) matches Some(p) ==> final(self).pieces() == old(self).pieces() + p,
            flat_pieces(*expr) is Some ==> final(self).indentation == old(self).indentation
                && final(self).user_indentation_instructions@ == old(self).user_indentation_instructions@,
            keeps_words(old(self).output@, final(self).output@),
        decreases expr, 0nat,
    {
        let ghost ok = old(self).wf() && expr_printable(*expr);
        proof {
            lemma_fixed_pieces_not_newline();
            lemma_words_not_newline();
            lemma_punctuation_not_ws();
        }
        let Expr::Call { procedure_name, comments_and_newlines_after_lparen, arguments } = &expr.expr else {
            return;
        };
        // a function assigned to a variable needs no semicolon
        if let Expr::UnidentifiedAsLiteral { literal_token } = &procedure_name.expr {
            if matches!(literal_token.token_type, TokenType::Function) {
                self.do_not_need_semicolon.push(());
            }
        }
        let ghost p0 = self.pieces();
        let ghost flat = flat_pieces(*expr) is Some;
        self.print_expr(procedure_name);
        let ghost mid = self.output@;
        self.backspace();
        proof {
            if flat {
                let w = simple_word(*procedure_name)->0;
                lemma_backspace_after_word(p0, seq![w, space_text()], mid);
                assert(self.pieces() =~= p0 + seq![w]);
            }
        }
        let ghost p1 = self.pieces();
        self.print(LPAREN, false);
        proof {
            reveal_pieces();
            assert(self.pieces() =~= p1.push(LPAREN@));
        }
        let did_move = self.print_comments_and_newlines(
            comments_and_newlines_after_lparen,
            CommentAndNewlinesInstruction::new_respect_users(IndentationMove::Right, LeadingNewlines::One),
        );
        // a function passed as an argument brings its own block
        let mut is_function = false;
        let mut i: usize = 0;
        while i < arguments.lines.len()
            invariant
                i <= arguments.lines.len(),
                flat ==> plain_lines(arguments.lines@),
                flat ==> !is_function,
            decreases arguments.lines.len() - i,
        {
            proof {
                if flat {
                    assert(simple_word(arguments.lines@[i as int].expr) is Some);
                }
            }
            if let Expr::Call { procedure_name, .. } = &arguments.lines[i].expr.expr {
                if let Expr::UnidentifiedAsLiteral { literal_token } = &procedure_name.expr {
                    is_function = matches!(literal_token.token_type, TokenType::Function);
                }
            }
            i = i + 1;
        }
        let ghost p2 = self.pieces();
        self.print_delimited_lines(arguments, COMMA, false, false);
        let ghost out3 = self.output@;
        self.backspace_whitespace();
        proof {
            if flat {
                assert(texts(out3) == p2 + call_args_printed(*arguments));
                lemma_call_args_trim(p2, *arguments, out3);
            }
        }
        let ghost p4 = self.pieces();
        if did_move {
            self.print_newline(IndentationMove::Left);
        }
        if !is_function {
            self.print(RPAREN, true);
        } else {
            self.block_instructions.push(BlockInstruction::no_newline_after_block());
        }
        proof {
            if flat {
                reveal_pieces();
                assert(self.pieces() =~= p4.push(RPAREN@).push(space_text()));
                assert(self.pieces() =~= old(self).pieces() + flat_pieces(*expr)->0);
            }
        }
    }

    /// Prints an expression, and the newlines and comments that follow it.
    #[verifier::rlimit(100)]
    fn print_expr(&mut self, expr: &'a ExprBox<'a>)
        ensures
            old(self).wf() && expr_printable(*expr) ==> final(self).wf(),
            final(self).lang_config == old(self).lang_config,
            !final(self).do_not_print_single_newline_statement,
            simple_word(*expr) matches Some(w) ==> final(self).pieces() == old(self).pieces().push(w).push(space_text()),
            flat_pieces(*expr) matches Some(p) ==> final(self).pieces() == old(self).pieces() + p,
            flat_pieces(*expr) is Some ==> final(self).indentation == old(self).indentation
                && final(self).user_indentation_instructions@ == old(self).user_indentation_instructions@,
            expr.trailing_comments is None ==> (array_pieces(*expr) matches Some(p) ==> final(self).pieces()
                == old(self).pieces() + p),
            expr.expr is Newline && expr.trailing_comments is None && old(self).output@.len() == 0 ==> {
                &&& final(self).output@.len() == 0
                &&& final(self).do_not_need_semicolon@.len() > 0
            },
            keeps_words(old(self).output@, final(self).output@),
        decreases expr, 1nat,
    {
        let ghost ok = old(self).wf() && expr_printable(*expr);
        proof {
            lemma_fixed_pieces_not_newline();
            lemma_words_not_newline();
        }
        match &expr.expr {
            Expr::Call { .. } => {
                self.print_call(expr);
            },
            Expr::Function { comments_after_control_word, call, comments_after_rparen, is_constructor } => {
                self.print("function", true);
                self.print_comments_and_newlines(
                    comments_after_control_word,
                    CommentAndNewlinesInstruction::new(IndentationMove::Stay, LeadingNewlines::One),
                );
                self.print_expr(call);
                if !*is_constructor {
                    self.backspace_whitespace();
                }
                self.print_comments_and_newlines(
                    comments_after_rparen,
                    CommentAndNewlinesInstruction::new(IndentationMove::Stay, LeadingNewlines::One),
                );
                if *is_constructor {
                    self.print("constructor", true);
                }
                self.do_not_need_semicolon.push(());
            },
            Expr::StructOperator { token, comments_before_expression, expression } => {
                self.print_token(token, true);
                self.print_comments_and_newlines(
                    comments_before_expression,
                    CommentAndNewlinesInstruction::new(IndentationMove::Stay, LeadingNewlines::One),
                );
                self.print_expr(expression);
                self.backspace_whitespace();
            },
            Expr::Binary { left, operator, comments_and_newlines_between_op_and_r, right } => {
                let ghost p0 = self.pieces();
                self.print_expr(left);
                proof {
                    if flat_pieces(*expr) is Some {
                        lemma_flat_ends_with_space(*left);
                        assert(self.pieces() == p0 + flat_pieces(*left)->0);
                        assert(self.output@.last()@ == self.pieces().last());
                    }
                }
                let ghost p1 = self.pieces();
                self.ensure_space();
                proof {
                    if flat_pieces(*expr) is Some {
                        reveal_pieces();
                        assert(self.pieces() == p1);
                    }
                }
                self.print_token(operator, true);
                self.allow_user_indentation();
                self.print_comments_and_newlines(
                    comments_and_newlines_between_op_and_r,
                    CommentAndNewlinesInstruction::new_respect_users(IndentationMove::Stay, LeadingNewlines::All),
                );
                let ghost p2 = self.pieces();
                self.print_expr(right);
                self.rewind_user_indentation();
                proof {
                    if flat_pieces(*expr) is Some {
                        assert(p2 == p1 + seq![operator.token_type.spec_name(), space_text()]);
                        assert(self.pieces() =~= p0 + flat_pieces(*expr)->0);
                    }
                }
            },
            Expr::Grouping { .. } => {
                self.print_grouping(expr);
            },
            Expr::ArrayLiteral { .. } => {
                self.print_array_literal(expr);
            },
            Expr::Literal { literal_token, comments } => {
                self.print_token(literal_token, true);
                self.print_comments_and_newlines(
                    comments,
                    CommentAndNewlinesInstruction::new(IndentationMove::Stay, LeadingNewlines::All),
                );
                proof {
                    if flat_pieces(*expr) is Some {
                        assert(self.pieces() =~= old(self).pieces() + flat_pieces(*expr)->0);
                    }
                }
            },
            Expr::NumberStartDot { literal_token, comments } => {
                proof {
                    reveal_strlit("0");
                }
                let ghost q0 = self.pieces();
                self.print("0", false);
                proof {
                    reveal_strlit("0");
                    assert("0"@ =~= seq!['0']);
                    assert(self.pieces() =~= q0.push(seq!['0']));
                }
                self.print_token(literal_token, true);
                self.print_comments_and_newlines(
                    comments,
                    CommentAndNewlinesInstruction::new(IndentationMove::Stay, LeadingNewlines::All),
                );
                proof {
                    if flat_pieces(*expr) is Some {
                        assert(self.pieces() =~= old(self).pieces() + flat_pieces(*expr)->0);
                    }
                }
            },
            Expr::NumberEndDot { literal_token, comments } => {
                proof {
                    reveal_strlit("0");
                    reveal_pieces();
                }
                self.print_token(literal_token, false);
                let ghost q0 = self.pieces();
                self.print("0", true);
                proof {
                    reveal_strlit("0");
                    reveal_pieces();
                    assert("0"@ =~= seq!['0']);
                    assert(self.pieces() =~= q0.push(seq!['0']).push(space_text()));
                }
                self.print_comments_and_newlines(
                    comments,
                    CommentAndNewlinesInstruction::new(IndentationMove::Stay, LeadingNewlines::All),
                );
                proof {
                    if flat_pieces(*expr) is Some {
                        assert(self.pieces() =~= old(self).pieces() + flat_pieces(*expr)->0);
                    }
                }
            },
            Expr::Unary { operator, comments_and_newlines_between, right } => {
                let ghost p0 = self.pieces();
                self.print_token(operator, matches!(operator.token_type, TokenType::NotAlias));
                self.print_comments_and_newlines(
                    comments_and_newlines_between,
                    CommentAndNewlinesInstruction::new(IndentationMove::Stay, LeadingNewlines::All),
                );
                let ghost p1 = self.pieces();
                self.print_expr(right);
                proof {
                    if flat_pieces(*expr) is Some {
                        assert(self.pieces() =~= p0 + flat_pieces(*expr)->0);
                    }
                }
            },
            Expr::Postfix { operator, comments_and_newlines_between, expr } => {
                self.print_expr(expr);
                self.backspace();
                self.print_token(operator, true);
                self.print_comments_and_newlines(
                    comments_and_newlines_between,
                    CommentAndNewlinesInstruction::new(IndentationMove::Stay, LeadingNewlines::All),
                );
            },
            Expr::Assign { left, operator, comments_and_newlines_between_op_and_r, right } => {
                let ghost p0 = self.pieces();
                self.print_expr(left);
                let ghost p1 = self.pieces();
                self.print_token(operator, true);
                self.print_comments_and_newlines(
                    comments_and_newlines_between_op_and_r,
                    CommentAndNewlinesInstruction::new(IndentationMove::Stay, LeadingNewlines::All),
                );
                let ghost p2 = self.pieces();
                self.print_expr(right);
                proof {
                    if flat_pieces(*expr) is Some {
                        assert(p2 == p1 + seq![operator.token_type.spec_name(), space_text()]);
                        assert(self.pieces() =~= p0 + flat_pieces(*expr)->0);
                    }
                }
            },
            Expr::Identifier { name, comments } => {
                self.print_token(name, true);
                self.print_comments_and_newlines(
                    comments,
                    CommentAndNewlinesInstruction::new(IndentationMove::Stay, LeadingNewlines::All),
                );
                proof {
                    if flat_pieces(*expr) is Some {
                        assert(self.pieces() =~= old(self).pieces() + flat_pieces(*expr)->0);
                    }
                }
            },
            Expr::DotAccess { .. } => {
                self.print_dot_access(expr);
            },
            Expr::DataStructureAccess { ds_name, access_type, access_exprs } => {
                self.print_expr(ds_name);
                self.backspace();
                self.print_token(access_type, !matches!(access_type.token_type, TokenType::LeftBracket));
                let mut i: usize = 0;
                while i < access_exprs.len()
                    invariant
                        self.lang_config == old(self).lang_config,
                keeps_words(old(self).output@, self.output@),
                        keeps_words(old(self).output@, self.output@),
                        ok ==> self.wf(),
                        ok ==> expr_printable(*expr),
                        i <= access_exprs.len(),
                        expr.expr matches Expr::DataStructureAccess { access_exprs: es, .. } && es == access_exprs,
                    decreases access_exprs.len() - i,
                {
                    let pair = &access_exprs[i];
                    assert(*pair == access_exprs@[i as int]);
                    proof {
                        lemma_fixed_pieces_not_newline();
                        if ok {
                            assert(run_printable(access_exprs@[i as int].0) && expr_printable(access_exprs@[i as int].1));
                        }
                    }
                    self.allow_user_indentation();
                    self.print_comments_and_newlines(
                        &pair.0,
                        CommentAndNewlinesInstruction::new(IndentationMove::Stay, LeadingNewlines::All),
                    );
                    proof {
                        assert(decreases_to!(expr => access_exprs));
                        assert(decreases_to!(access_exprs => access_exprs@));
                        assert(decreases_to!(access_exprs@ => access_exprs@[i as int]));
                        assert(decreases_to!(access_exprs@[i as int] => access_exprs@[i as int].1));
                    }
                    self.print_expr(&pair.1);
                    self.rewind_user_indentation();
                    self.backspace();
                    i = i + 1;
                    if i < access_exprs.len() {
                        self.print(COMMA, true);
                    }
                }
                self.backspace();
                self.print("]", true);
            },
            Expr::Ternary { .. } => {
                self.print_ternary(expr);
            },
            Expr::Newline => {
                self.do_not_need_semicolon.push(());
                if self.do_not_print_single_newline_statement == false {
                    self.print_newline(IndentationMove::Stay);
                }
            },
            Expr::Comment { comment } => {
                self.do_not_need_semicolon.push(());
                self.print_token(comment, false);
            },
            Expr::MultilineComment { multiline_comment } => {
                self.do_not_need_semicolon.push(());
                self.print_token(multiline_comment, false);
            },
            Expr::UnidentifiedAsLiteral { literal_token } => {
                self.print_token(literal_token, true);
                if matches!(literal_token.token_type, TokenType::Constructor) {
                    self.do_not_need_semicolon.push(());
                }
                proof {
                    if flat_pieces(*expr) is Some {
                        assert(self.pieces() =~= old(self).pieces() + flat_pieces(*expr)->0);
                    }
                }
            },
        }
        let ghost before_trailing = self.pieces();
        proof {
            assert(flat_pieces(*expr) matches Some(p) ==> before_trailing == old(self).pieces() + p);
        }
        self.print_comments_and_newlines(
            &expr.trailing_comments,
            CommentAndNewlinesInstruction {
                indentation_move: IndentationMove::Stay,
                leading_newlines: LeadingNewlines::All,
                respect_user_newline: true,
                trailing_comment: true,
            },
        );
        self.do_not_print_single_newline_statement = false;
    }

    /// Prints a run of statements.
    fn print_statements(&mut self, stmts: &'a Vec<StmtBox<'a>>)
        ensures
            old(self).wf() && (forall|i: int| 0 <= i < stmts@.len() ==> stmt_printable(*#[trigger] stmts@[i]))
                ==> final(self).wf(),
            final(self).lang_config == old(self).lang_config,
            all_simple(stmts@) ==> final(self).pieces() == old(self).pieces() + simple_run_pieces(stmts@),
            (forall|i: int| 0 <= i < stmts@.len() ==> is_newline_statement(*stmts@[i])) && old(self).pieces().len()
                == 0 ==> final(self).pieces().len() == 0,
            all_simple(stmts@) ==> final(self).indent_level() == old(self).indent_level(),
            (forall|i: int| 0 <= i < stmts@.len() ==> no_switch_or_enum(*#[trigger] stmts@[i])) ==> keeps_words(
                old(self).output@,
                final(self).output@,
            ),
        decreases stmts, 0nat,
    {
        let ghost ok = old(self).wf() && (forall|i: int| 0 <= i < stmts@.len() ==> stmt_printable(*#[trigger] stmts@[i]));
        let ghost start = self.pieces();
        let mut i: usize = 0;
        proof {
            assert(stmts@.subrange(0, 0) =~= Seq::<StmtBox<'a>>::empty());
            assert(start + simple_run_pieces(stmts@.subrange(0, 0)) =~= start);
        }
        while i < stmts.len()
            invariant
                (forall|i: int| 0 <= i < stmts@.len() ==> no_switch_or_enum(*#[trigger] stmts@[i])) ==> keeps_words(old(self).output@, self.output@),
                self.lang_config == old(self).lang_config,
                all_simple(stmts@) ==> self.pieces() == start + simple_run_pieces(stmts@.subrange(0, i as int)),
                all_simple(stmts@) ==> self.indentation == old(self).indentation,
                (forall|i: int| 0 <= i < stmts@.len() ==> is_newline_statement(*stmts@[i])) && start.len() == 0
                    ==> self.pieces().len() == 0,
                ok ==> self.wf(),
                ok ==> forall|i: int| 0 <= i < stmts@.len() ==> stmt_printable(*#[trigger] stmts@[i]),
                i <= stmts.len(),
            decreases stmts.len() - i,
        {
            proof {
                if ok {
                    assert(stmt_printable(*stmts@[i as int]));
                }
            }
            proof {
                assert(decreases_to!(stmts => stmts@));
                assert(decreases_to!(stmts@ => stmts@[i as int]));
            }
            let ghost before = self.pieces();
            self.print_statement(&stmts[i]);
            proof {
                if all_simple(stmts@) {
                    let c = simple_pieces(*stmts@[i as int])->0;
                    let next = stmts@.subrange(0, i + 1);
                    assert(next.drop_last() =~= stmts@.subrange(0, i as int));
                    assert(next.last() == stmts@[i as int]);
                    assert(simple_run_pieces(next) == simple_run_pieces(stmts@.subrange(0, i as int)) + c);
                    assert(self.pieces() =~= start + simple_run_pieces(next));
                }
            }
            i = i + 1;
        }
        proof {
            assert(stmts@.subrange(0, i as int) =~= stmts@);
        }
    }

    /// Prints an `if` statement: the keyword, the condition, the branch and any `else` branch.
    fn print_if(&mut self, stmt: &'a StatementWrapper<'a>)
        requires
            stmt.statement is If,
        ensures
            old(self).wf() && stmt_printable(*stmt) ==> final(self).wf(),
            final(self).lang_config == old(self).lang_config,
            no_switch_or_enum(*stmt) ==> keeps_words(old(self).output@, final(self).output@),
            header_pieces(*stmt) is Some && no_switch_or_enum(*stmt) ==> {
                let k = (old(self).output@.len() + header_pieces(*stmt)->0.len()) as int;
                k < final(self).output@.len() && final(self).output@[k]@ == LBRACE@
            },
        decreases stmt, 0nat,
    {
        let ghost ok = old(self).wf() && stmt_printable(*stmt);
        proof {
            lemma_fixed_pieces_not_newline();
            lemma_words_not_newline();
        }
        let Statement::If { comments_after_control_word, condition, then_branch, comments_between, else_branch } = &stmt.statement else {
            return;
        };
        let ghost h0 = self.pieces();
        self.print("if", true);
        proof {
            reveal_pieces();
            assert(self.pieces() =~= h0 + seq!["if"@, space_text()]);
        }
        self.print_comments_and_newlines(
            comments_after_control_word,
            CommentAndNewlinesInstruction::new(IndentationMove::Stay, LeadingNewlines::One),
        );
        let has_block = if let Statement::Block { .. } = &then_branch.statement {
            self.block_instructions.push(BlockInstruction::no_newline_after_block());
            true
        } else {
            false
        };
        let current_indentation = self.indentation;
        if has_block == false {
            if let Expr::Grouping { .. } = &condition.expr {
                self.group_instructions.push(
                    GroupInstruction {
                        force_indentation: Some(IndentationMove::Right),
                        force_leading_newlines: None,
                        force_respect: Some(true),
                    },
                );
            }
        }
        self.print_expr(condition);
        let ghost k: int = h0.len() + 2 + match flat_pieces(*condition) {
            Some(p) => p.len() as int,
            None => 0int,
        };
        proof {
            if header_pieces(*stmt) is Some {
                lemma_flat_ends_with_space(*condition);
                lemma_after_word_not_blank(self.output@, h0 + seq!["if"@, space_text()], flat_pieces(*condition)->0);
                assert(with_space(self.pieces()) == self.pieces());
            }
        }
        let forcible_indent = self.indentation != current_indentation && has_block == false;
        self.print_statement(then_branch);
        let ghost after_then = self.output@;
        let did_move = self.print_comments_and_newlines(
            comments_between,
            CommentAndNewlinesInstruction {
                indentation_move: if forcible_indent {
                    IndentationMove::Left
                } else {
                    IndentationMove::Stay
                },
                leading_newlines: LeadingNewlines::All,
                respect_user_newline: true,
                trailing_comment: true,
            },
        );
        if did_move == false {
            self.print_newline(
                if forcible_indent {
                    IndentationMove::Left
                } else {
                    IndentationMove::Stay
                },
            );
        }
        if let Some(else_branch) = else_branch {
            if forcible_indent == false {
                self.backspace_whitespace();
            }
            self.ensure_space();
            self.print("else", true);
            self.print_statement(else_branch);
        }
        self.print_semicolon(stmt.has_semicolon);
        proof {
            if header_pieces(*stmt) is Some && no_switch_or_enum(*stmt) {
                lemma_punctuation_not_ws();
                assert(after_then[k]@ == LBRACE@);
                assert(keeps_words(after_then, self.output@));
                assert(!is_ws_piece(after_then[k]@));
            }
        }
    }

    /// Prints a `while`, `with` or `repeat` statement: the keyword, the condition and the body.
    fn print_while_with_repeat(&mut self, stmt: &'a StatementWrapper<'a>)
        requires
            stmt.statement is WhileWithRepeat,
        ensures
            old(self).wf() && stmt_printable(*stmt) ==> final(self).wf(),
            final(self).lang_config == old(self).lang_config,
            no_switch_or_enum(*stmt) ==> keeps_words(old(self).output@, final(self).output@),
            header_pieces(*stmt) is Some && no_switch_or_enum(*stmt) ==> {
                let k = (old(self).output@.len() + header_pieces(*stmt)->0.len()) as int;
                k < final(self).output@.len() && final(self).output@[k]@ == LBRACE@
            },
        decreases stmt, 0nat,
    {
        let ghost ok = old(self).wf() && stmt_printable(*stmt);
        proof {
            lemma_fixed_pieces_not_newline();
            lemma_words_not_newline();
        }
        let Statement::WhileWithRepeat { token, condition, body, comments_after_control_word } = &stmt.statement else {
            return;
        };
        let ghost h0 = self.pieces();
        self.print_token(token, true);
        assert(self.pieces() =~= h0 + seq![token.token_type.spec_name(), space_text()]);
        self.print_comments_and_newlines(
            comments_after_control_word,
            CommentAndNewlinesInstruction::new(IndentationMove::Stay, LeadingNewlines::One),
        );
        self.print_expr(condition);
        let ghost k: int = h0.len() + 2 + match flat_pieces(*condition) {
            Some(p) => p.len() as int,
            None => 0int,
        };
        proof {
            if header_pieces(*stmt) is Some {
                lemma_flat_ends_with_space(*condition);
                lemma_after_word_not_blank(
                    self.output@,
                    h0 + seq![token.token_type.spec_name(), space_text()],
                    flat_pieces(*condition)->0,
                );
                assert(with_space(self.pieces()) == self.pieces());
            }
        }
        self.print_statement(body);
        let ghost after_body = self.output@;
        self.print_semicolon(stmt.has_semicolon);
        proof {
            if header_pieces(*stmt) is Some && no_switch_or_enum(*stmt) {
                lemma_punctuation_not_ws();
                assert(after_body[k]@ == LBRACE@);
                assert(!is_ws_piece(after_body[k]@));
            }
        }
    }

    /// Opens the body of a switch case after its label: the statements of the
    /// case go on a new line, one indentation level deeper than the label (where
    /// only newlines follow the colon and the line before the label's is not
    /// blank, so that a newline is printed).
    fn open_case_body(&mut self, comments_after_colon: &'a CommentsAndNewlines<'a>)
        ensures
            old(self).wf() && run_printable(*comments_after_colon) ==> final(self).wf(),
            final(self).lang_config == old(self).lang_config,
            keeps_words(old(self).output@, final(self).output@),
            (comments_after_colon matches Some(v) ==> forall|i: int|
                0 <= i < v@.len() ==> (#[trigger] v@[i]).token_type is Newline) && old(self).output@.len() > 0
                && !spec_prev_line_was_whitespace(old(self).output@) ==> {
                &&& final(self).indentation == next_indentation(old(self).indentation as int, IndentationMove::Right)
                &&& final(self).output@ == backspaced(old(self).output@).push(NEWLINE) + indentation_pieces(
                    final(self).indentation as nat,
                    *old(self).lang_config,
                )
            },
    {
        let did_move = self.print_comments_and_newlines(
            comments_after_colon,
            CommentAndNewlinesInstruction::new(IndentationMove::Right, LeadingNewlines::One),
        );
        if did_move == false {
            self.print_newline(IndentationMove::Right);
        }
    }

    /// Prints a block: the opening brace on the line of the code before it, the
    /// statements, and the closing brace.
    fn print_block(&mut self, stmt: &'a StatementWrapper<'a>)
        requires
            stmt.statement is Block,
        ensures
            old(self).wf() && stmt_printable(*stmt) ==> final(self).wf(),
            final(self).lang_config == old(self).lang_config,
            no_switch_or_enum(*stmt) ==> keeps_words(old(self).output@, final(self).output@),
            no_switch_or_enum(*stmt) && !spec_on_whitespace_line(old(self).output@) ==> {
                let k = with_space(old(self).pieces()).len() as int;
                k < final(self).output@.len() && final(self).output@[k]@ == LBRACE@
            },
        decreases stmt, 0nat,
    {
        let ghost ok = old(self).wf() && stmt_printable(*stmt);
        proof {
            lemma_fixed_pieces_not_newline();
            lemma_words_not_newline();
        }
        let Statement::Block { statements, comments_after_lbrace } = &stmt.statement else {
            return;
        };
        let block_instructions = match self.block_instructions.pop() {
            Some(instruction) => instruction,
            None => BlockInstruction::none(),
        };
        self.open_brace();
        let ghost after_brace = self.output@;
        let ghost k = with_space(old(self).pieces()).len() as int;
        proof {
            reveal_pieces();
        }
        assert(!spec_on_whitespace_line(old(self).output@) ==> after_brace[k]@ == LBRACE@) by {
            reveal_pieces();
            if !spec_on_whitespace_line(old(self).output@) {
                assert(self.output@ == after_brace);
                assert(self.pieces() == with_space(old(self).pieces()).push(LBRACE@));
                assert(texts(after_brace) == with_space(old(self).pieces()).push(LBRACE@));
                assert(texts(after_brace).len() == after_brace.len());
                assert(texts(after_brace)[k] == LBRACE@);
                assert(k < after_brace.len());
                assert(texts(after_brace)[k] == after_brace[k]@);
                assert(after_brace[k]@ == LBRACE@);
            }
        }
        // indent when there is more than one statement, or one that is not an expression
        let must_indent = block_instructions.contains(BlockInstruction::must_indent()) || statements.len() > 1
            || (statements.len() == 1 && statements[0].hold_expr() == false);
        let did_move = self.print_comments_and_newlines(
            comments_after_lbrace,
            CommentAndNewlinesInstruction::new(IndentationMove::Right, LeadingNewlines::One),
        );
        if must_indent && did_move == false {
            self.print_newline(IndentationMove::Right);
        }
        let did_newline = did_move || must_indent;
        if did_newline == false {
            self.ensure_space();
        }
        // a lone statement needs neither semicolon nor newline
        if statements.len() == 1 {
            self.do_not_need_semicolon.push(());
        }
        let mut i: usize = 0;
        while i < statements.len()
            invariant
                no_switch_or_enum(*stmt) ==> keeps_words(old(self).output@, self.output@),
                no_switch_or_enum(*stmt) ==> keeps_words(after_brace, self.output@),
                self.lang_config == old(self).lang_config,
                ok ==> self.wf(),
                ok ==> stmt_printable(*stmt),
                i <= statements.len(),
                stmt.statement matches Statement::Block { statements: ss, .. } && ss == statements,
            decreases statements.len() - i,
        {
            let inner = &statements[i];
            proof {
                if ok {
                    assert(stmt_printable(*statements@[i as int]));
                }
            }
            proof {
                assert(decreases_to!(stmt => statements));
                assert(decreases_to!(statements => statements@));
                assert(decreases_to!(statements@ => statements@[i as int]));
            }
            self.print_statement(inner);
            if did_newline && inner.has_semicolon {
                if self.on_whitespace_line() == false {
                    self.print_newline(IndentationMove::Stay);
                    self.do_not_print_single_newline_statement = true;
                }
            }
            i = i + 1;
        }
        if did_newline {
            self.backspace_whitespace();
            self.print_newline(IndentationMove::Left);
        } else {
            self.backspace();
            let after_lbrace = match self.last_entry() {
                Some(last) => str_eq(last, LBRACE),
                None => false,
            };
            if !after_lbrace {
                self.ensure_space();
            }
        }
        self.print(RBRACE, false);
        self.print_semicolon(stmt.has_semicolon);
        if block_instructions.contains(BlockInstruction::no_newline_after_block()) == false {
            self.ensure_newline(IndentationMove::Stay);
        }
        self.do_not_print_single_newline_statement = true;
        proof {
            reveal_pieces();
            if no_switch_or_enum(*stmt) && !spec_on_whitespace_line(old(self).output@) {
                assert(after_brace[k]@ == LBRACE@);
                lemma_punctuation_not_ws();
                assert(!is_ws_piece(after_brace[k]@));
            }
        }
    }

    /// Prints a statement.
    #[verifier::rlimit(100)]
    fn print_statement(&mut self, stmt: &'a StatementWrapper<'a>)
        ensures
            old(self).wf() && stmt_printable(*stmt) ==> final(self).wf(),
            final(self).lang_config == old(self).lang_config,
            comment_text(*stmt) matches Some(c) ==> final(self).pieces() == old(self).pieces().push(c).push(
                space_text(),
            ),
            simple_pieces(*stmt) matches Some(p) ==> final(self).pieces() == old(self).pieces() + p,
            simple_pieces(*stmt) is Some ==> final(self).indent_level() == old(self).indent_level(),
            stmt.statement matches Statement::ExpresssionStatement { expression } ==> (expression.expr is Newline
                && expression.trailing_comments is None && !stmt.has_semicolon && old(self).output@.len() == 0
                ==> final(self).output@.len() == 0),
            stmt.statement matches Statement::ExpresssionStatement { expression } ==> (simple_word(expression) matches Some(
                w,
            ) ==> (stmt.has_semicolon && !is_ws_piece(w) ==> final(self).pieces() == old(self).pieces().push(w).push(
                SEMICOLON@,
            ).push(space_text()))),
            stmt.statement matches Statement::ExpresssionStatement { expression } ==> (flat_pieces(expression) matches Some(
                p,
            ) ==> (stmt.has_semicolon && !is_ws_piece(p[p.len() - 2]) ==> final(self).pieces() == old(self).pieces()
                + p.drop_last() + seq![SEMICOLON@, space_text()])),
            stmt.has_semicolon ==> (stmt.statement matches Statement::Return { expression } ==> match expression {
                None => final(self).pieces() == old(self).pieces() + seq!["return"@, SEMICOLON@, space_text()],
                Some(e) => (flat_pieces(e) matches Some(p) ==> (!is_ws_piece(p[p.len() - 2]) ==> final(self).pieces()
                    == old(self).pieces() + seq!["return"@, space_text()] + p.drop_last() + seq![
                    SEMICOLON@,
                    space_text(),
                ])),
            }),
            stmt.has_semicolon && stmt.statement is Break ==> final(self).pieces() == old(self).pieces() + seq![
                "break"@,
                SEMICOLON@,
                space_text(),
            ],
            stmt.has_semicolon && stmt.statement is Exit ==> final(self).pieces() == old(self).pieces() + seq![
                "exit"@,
                SEMICOLON@,
                space_text(),
            ],
            no_switch_or_enum(*stmt) ==> keeps_words(old(self).output@, final(self).output@),
            header_pieces(*stmt) is Some && no_switch_or_enum(*stmt) ==> {
                let k = (old(self).output@.len() + header_pieces(*stmt)->0.len()) as int;
                k < final(self).output@.len() && final(self).output@[k]@ == LBRACE@
            },
            stmt.statement is Block && no_switch_or_enum(*stmt) && !spec_on_whitespace_line(old(self).output@) ==> {
                let k = with_space(old(self).pieces()).len() as int;
                k < final(self).output@.len() && final(self).output@[k]@ == LBRACE@
            },
        decreases stmt, 1nat,
    {
        let ghost ok = old(self).wf() && stmt_printable(*stmt);
        proof {
            lemma_fixed_pieces_not_newline();
            lemma_words_not_newline();
        }
        match &stmt.statement {
            Statement::VariableDeclList { starting_var_type, comments_after_control_word, var_decl: var_decl_list } => {
                self.print_token(starting_var_type, true);
                let already_started_indent = self.print_comments_and_newlines(
                    comments_after_control_word,
                    CommentAndNewlinesInstruction::new(IndentationMove::Right, LeadingNewlines::One),
                );
                let mut indented_vars = already_started_indent;
                let mut interrupt_eol_formatting = false;
                let lines = &var_decl_list.lines;
                let mut i: usize = 0;
                while i < lines.len()
                    invariant
                        no_switch_or_enum(*stmt) ==> keeps_words(old(self).output@, self.output@),
                        self.lang_config == old(self).lang_config,
                        ok ==> self.wf(),
                        ok ==> stmt_printable(*stmt),
                        stmt.statement matches Statement::VariableDeclList { var_decl: vd, .. } && vd == *var_decl_list,
                        *lines == var_decl_list.lines,
                        i <= lines.len(),
                    decreases lines.len() - i,
                {
                    let delimited_var = &lines[i];
                    proof {
                        lemma_fixed_pieces_not_newline();
                        if ok {
                            assert(var_decl_printable(var_decl_list.lines@[i as int].expr) && run_printable(
                                var_decl_list.lines@[i as int].trailing_comment,
                            ));
                        }
                    }
                    if let Some(var_token) = &delimited_var.expr.say_var {
                        self.print_token(var_token, true);
                        if let Some(comments) = &delimited_var.expr.say_var_comments {
                            let did_move = self.print_comments_and_newlines(
                                comments,
                                CommentAndNewlinesInstruction::new(
                                    if indented_vars {
                                        IndentationMove::Stay
                                    } else {
                                        IndentationMove::Right
                                    },
                                    LeadingNewlines::One,
                                ),
                            );
                            if did_move {
                                indented_vars = true;
                            }
                        }
                    }
                    self.allow_user_indentation();
                    self.print_expr(&delimited_var.expr.var_expr);
                    self.backspace();
                    self.rewind_user_indentation();
                    i = i + 1;
                    let last_line = i >= lines.len();
                    if last_line == false {
                        self.print(COMMA, true);
                    } else {
                        if var_decl_list.has_end_delimiter {
                            self.print(COMMA, true);
                        } else {
                            interrupt_eol_formatting = self.do_not_need_semicolon.len() > 0;
                            if interrupt_eol_formatting == false {
                                self.print(SEMICOLON, true);
                            }
                        }
                    }
                    if delimited_var.trailing_comment.is_some() {
                        self.allow_user_indentation();
                        let did_newlines = self.print_comments_and_newlines(
                            &delimited_var.trailing_comment,
                            CommentAndNewlinesInstruction::new_respect_users(
                                if indented_vars {
                                    IndentationMove::Stay
                                } else {
                                    IndentationMove::Right
                                },
                                LeadingNewlines::All,
                            ),
                        );
                        if did_newlines {
                            indented_vars = true;
                        } else {
                            self.rewind_user_indentation();
                        }
                    }
                }
                if indented_vars {
                    if self.on_whitespace_line() == false {
                        self.print_newline(IndentationMove::Left);
                    } else {
                        self.backspace_till_newline();
                        self.print_indentation(IndentationMove::Left);
                    }
                }
                if !interrupt_eol_formatting && self.on_whitespace_line() == false && self.in_a_for_loop.len() == 0 {
                    self.print_newline(IndentationMove::Stay);
                    self.do_not_print_single_newline_statement = true;
                }
            },
            Statement::EnumDeclaration { comments_after_control_word, name, comments_after_lbrace, members } => {
                self.print("enum", true);
                self.print_comments_and_newlines(
                    comments_after_control_word,
                    CommentAndNewlinesInstruction::new(IndentationMove::Stay, LeadingNewlines::One),
                );
                self.print_expr(name);
                self.print(LBRACE, true);
                let did_move = self.print_comments_and_newlines(
                    comments_after_lbrace,
                    CommentAndNewlinesInstruction::new(IndentationMove::Right, LeadingNewlines::One),
                );
                if did_move == false {
                    self.print_newline(IndentationMove::Right);
                }
                self.backspace();
                self.print_delimited_lines(members, COMMA, true, true);
                self.set_indentation(IndentationMove::Left);
                self.backspace_till_newline();
                self.print(RBRACE, false);
                self.print_semicolon(stmt.has_semicolon);
            },
            Statement::ExpresssionStatement { expression } => {
                let ghost before = self.pieces();
                self.print_expr(expression);
                let ghost mid = self.output@;
                proof {
                    if simple_word(*expression) is Some {
                        let w = simple_word(*expression)->0;
                        reveal_pieces();
                        reveal_with_fuel(whitespace_back_to_newline, 2);
                        assert(texts(mid) == before.push(w).push(space_text()));
                        assert(mid.last()@ == texts(mid).last());
                        assert(mid[mid.len() - 2]@ == texts(mid)[mid.len() - 2]);
                    }
                }
                self.print_semicolon(stmt.has_semicolon);
                proof {
                    if flat_pieces(*expression) is Some && stmt.has_semicolon {
                        let p = flat_pieces(*expression)->0;
                        lemma_flat_ends_with_space(*expression);
                        if !is_ws_piece(p[p.len() - 2]) {
                            reveal_pieces();
                            lemma_backspace_after_word(before, p, mid);
                            assert(self.pieces() =~= texts(mid.drop_last()).push(SEMICOLON@).push(SPACE@));
                            assert(self.pieces() =~= before + p.drop_last() + seq![SEMICOLON@, space_text()]);
                        }
                    }
                    if simple_word(*expression) is Some && stmt.has_semicolon {
                        let w = simple_word(*expression)->0;
                        if !is_ws_piece(w) {
                            reveal_pieces();
                            reveal_with_fuel(whitespace_back_to_newline, 2);
                            assert(mid.len() >= 2);
                            assert(is_blank_piece(mid[mid.len() - 1]@));
                            assert(!is_blank_piece(mid[mid.len() - 2]@) && mid[mid.len() - 2]@ != newline_text());
                            assert(!whitespace_back_to_newline(mid, mid.len() - 1));
                            assert(backspaced(mid) == mid.drop_last());
                            assert(texts(mid) == before.push(w).push(space_text()));
                            assert forall|i: int| 0 <= i < mid.len() - 1 implies #[trigger] texts(mid.drop_last())[i]
                                == before.push(w)[i] by {
                                assert(texts(mid.drop_last())[i] == mid[i]@);
                                assert(texts(mid)[i] == mid[i]@);
                                assert(before.push(w).push(space_text())[i] == before.push(w)[i]);
                            }
                            assert(texts(mid.drop_last()) =~= before.push(w));
                            assert(self.output@ == mid.drop_last().push(SEMICOLON).push(SPACE));
                            assert(self.pieces() =~= texts(mid.drop_last()).push(SEMICOLON@).push(SPACE@));
                            assert(self.pieces() =~= before.push(w).push(SEMICOLON@).push(space_text()));
                        }
                    }
                }
            },
            Statement::Block { .. } => {
                self.print_block(stmt);
            },
            Statement::If { .. } => {
                self.print_if(stmt);
            },
            Statement::WhileWithRepeat { .. } => {
                self.print_while_with_repeat(stmt);
            },
            Statement::DoUntil { comments_after_control_word, condition, comments_between, body } => {
                self.print("do", true);
                self.print_comments_and_newlines(
                    comments_after_control_word,
                    CommentAndNewlinesInstruction::new(IndentationMove::Stay, LeadingNewlines::One),
                );
                self.block_instructions.push(
                    BlockInstruction::no_newline_after_block().union(BlockInstruction::must_indent()),
                );
                self.print_statement(body);
                self.print_comments_and_newlines(
                    comments_between,
                    CommentAndNewlinesInstruction::new(IndentationMove::Stay, LeadingNewlines::Zero),
                );
                self.backspace_whitespace();
                let after_rbrace = match self.last_entry() {
                    Some(last) => str_eq(last, RBRACE),
                    None => false,
                };
                if after_rbrace {
                    self.ensure_space();
                } else {
                    self.print_newline(IndentationMove::Stay);
                }
                self.print("until", true);
                self.print_expr(condition);
                self.backspace();
                self.print_semicolon_and_newline(stmt.has_semicolon, IndentationMove::Stay);
            },
            Statement::For {
                comments_after_control_word,
                comments_after_lparen,
                initializer,
                comments_after_initializer,
                condition,
                comments_after_condition,
                increment,
                comments_after_increment,
                comments_after_rparen,
                body,
            } => {
                self.print("for", true);
                self.print_comments_and_newlines(
                    comments_after_control_word,
                    CommentAndNewlinesInstruction::new(IndentationMove::Stay, LeadingNewlines::One),
                );
                self.print(LPAREN, false);
                self.in_a_for_loop.push(());
                let did_move = self.print_comments_and_newlines(
                    comments_after_lparen,
                    CommentAndNewlinesInstruction::new_respect_users(IndentationMove::Right, LeadingNewlines::One),
                );
                if let Some(initializer) = initializer {
                    self.print_statement(initializer);
                    self.ensure_space();
                } else {
                    self.print(SEMICOLON, true);
                }
                self.print_comments_and_newlines(
                    comments_after_initializer,
                    CommentAndNewlinesInstruction::new(IndentationMove::Stay, LeadingNewlines::One),
                );
                if let Some(condition) = condition {
                    self.print_expr(condition);
                }
                self.backspace();
                self.print(SEMICOLON, true);
                self.print_comments_and_newlines(
                    comments_after_condition,
                    CommentAndNewlinesInstruction::new(IndentationMove::Stay, LeadingNewlines::One),
                );
                if let Some(increment) = increment {
                    self.print_expr(increment);
                } else {
                    self.backspace();
                }
                let did_move_final_comment = self.print_comments_and_newlines(
                    comments_after_increment,
                    CommentAndNewlinesInstruction::new(IndentationMove::Stay, LeadingNewlines::One),
                );
                if did_move_final_comment == false {
                    self.backspace();
                }
                if did_move {
                    self.print_newline(IndentationMove::Left);
                }
                self.print(RPAREN, true);
                self.in_a_for_loop.pop();
                self.print_comments_and_newlines(
                    comments_after_rparen,
                    CommentAndNewlinesInstruction::new(IndentationMove::Stay, LeadingNewlines::One),
                );
                self.print_statement(body);
                self.print_semicolon(stmt.has_semicolon);
            },
            Statement::Return { expression } => {
                let ghost p0 = self.pieces();
                self.print("return", false);
                proof {
                    reveal_pieces();
                    assert(self.pieces() =~= p0.push("return"@));
                }
                if let Some(expression) = expression {
                    self.print(SPACE, false);
                    let ghost p1 = self.pieces();
                    proof {
                        assert(p1 =~= p0 + seq!["return"@, space_text()]);
                    }
                    self.print_expr(expression);
                    let ghost mid = self.output@;
                    self.print_semicolon_and_newline(stmt.has_semicolon, IndentationMove::Stay);
                    proof {
                        if flat_pieces(*expression) is Some && stmt.has_semicolon {
                            let p = flat_pieces(*expression)->0;
                            lemma_flat_ends_with_space(*expression);
                            if !is_ws_piece(p[p.len() - 2]) {
                                lemma_backspace_after_word(p1, p, mid);
                                assert(self.pieces() =~= texts(mid.drop_last()).push(SEMICOLON@).push(SPACE@));
                                assert(self.pieces() =~= p0 + seq!["return"@, space_text()] + p.drop_last() + seq![
                                    SEMICOLON@,
                                    space_text(),
                                ]);
                            }
                        }
                    }
                } else {
                    let ghost mid = self.output@;
                    self.print_semicolon_and_newline(stmt.has_semicolon, IndentationMove::Stay);
                    proof {
                        if stmt.has_semicolon {
                            lemma_word_not_blank("return"@);
                            assert(mid.last()@ == "return"@);
                            assert(backspaced(mid) == mid);
                            assert(self.pieces() =~= p0 + seq!["return"@, SEMICOLON@, space_text()]);
                        }
                    }
                }
            },
            Statement::Break => {
                let ghost p0 = self.pieces();
                self.print("break", false);
                let ghost mid = self.output@;
                self.print_semicolon_and_newline(stmt.has_semicolon, IndentationMove::Stay);
                proof {
                    if stmt.has_semicolon {
                        reveal_pieces();
                        lemma_word_not_blank("break"@);
                        assert(texts(mid) =~= p0.push("break"@));
                        assert(mid.last()@ == "break"@);
                        assert(backspaced(mid) == mid);
                        assert(self.pieces() =~= p0 + seq!["break"@, SEMICOLON@, space_text()]);
                    }
                }
            },
            Statement::Exit => {
                let ghost p0 = self.pieces();
                self.print("exit", false);
                let ghost mid = self.output@;
                self.print_semicolon_and_newline(stmt.has_semicolon, IndentationMove::Stay);
                proof {
                    if stmt.has_semicolon {
                        reveal_pieces();
                        lemma_word_not_blank("exit"@);
                        assert(texts(mid) =~= p0.push("exit"@));
                        assert(mid.last()@ == "exit"@);
                        assert(backspaced(mid) == mid);
                        assert(self.pieces() =~= p0 + seq!["exit"@, SEMICOLON@, space_text()]);
                    }
                }
            },
            Statement::Switch { comments_after_control_word, condition, comments_after_lbrace, cases } => {
                self.print("switch", true);
                self.print_comments_and_newlines(
                    comments_after_control_word,
                    CommentAndNewlinesInstruction::new(IndentationMove::Stay, LeadingNewlines::One),
                );
                self.print_expr(condition);
                self.ensure_space();
                self.print(LBRACE, true);
                let did_newline = self.print_comments_and_newlines(
                    comments_after_lbrace,
                    CommentAndNewlinesInstruction::new(IndentationMove::Right, LeadingNewlines::One),
                );
                if did_newline == false {
                    self.print_newline(IndentationMove::Right);
                }
                let mut i: usize = 0;
                while i < cases.len()
                    invariant
                        no_switch_or_enum(*stmt) ==> keeps_words(old(self).output@, self.output@),
                        self.lang_config == old(self).lang_config,
                        ok ==> self.wf(),
                        ok ==> stmt_printable(*stmt),
                        i <= cases.len(),
                        stmt.statement matches Statement::Switch { cases: cs, .. } && cs == cases,
                    decreases cases.len() - i,
                {
                    let case = &cases[i];
                    proof {
                        lemma_fixed_pieces_not_newline();
                        lemma_words_not_newline();
                        if ok {
                            let c = cases@[i as int];
                            assert(c.control_word matches CaseType::Case(e) ==> expr_printable(e));
                            assert(run_printable(c.comments_after_control_word));
                            assert(run_printable(c.comments_after_colon));
                            assert(forall|j: int| 0 <= j < c.statements@.len() ==> stmt_printable(*#[trigger] c.statements@[j]));
                        }
                    }
                    match &case.control_word {
                        CaseType::Case(case_constant) => {
                            self.print("case", true);
                            self.print_comments_and_newlines(
                                &case.comments_after_control_word,
                                CommentAndNewlinesInstruction::new(IndentationMove::Stay, LeadingNewlines::One),
                            );
                            self.print_expr(case_constant);
                        },
                        CaseType::Default => {
                            self.print("default", true);
                        },
                    }
                    self.backspace();
                    self.print(":", true);
                    let saved_indentation = self.indentation;
                    self.open_case_body(&case.comments_after_colon);
                    proof {
                        assert(decreases_to!(stmt => cases));
                        assert(decreases_to!(cases => cases@));
                        assert(decreases_to!(cases@ => cases@[i as int]));
                        assert(decreases_to!(cases@[i as int] => cases@[i as int].statements));
                    }
                    self.print_statements(&case.statements);
                    self.backspace_till_newline();
                    self.print_indentation_raw(saved_indentation);
                    i = i + 1;
                }
                self.backspace_whitespace();
                self.print_newline(IndentationMove::Left);
                self.print(RBRACE, false);
                self.print_semicolon(stmt.has_semicolon);
            },
            Statement::Comment { comment } => self.print_token(comment, true),
            Statement::MultilineComment { multiline_comment } => self.print_token(multiline_comment, true),
            Statement::RegionBegin(comment) | Statement::RegionEnd(comment) | Statement::Macro(comment) => {
                self.print_token(comment, false);
                self.backspace();
            },
            Statement::Define { comments_after_control_word, script_name, body } => {
                self.print("#define", true);
                self.print_comments_and_newlines(
                    comments_after_control_word,
                    CommentAndNewlinesInstruction::new(IndentationMove::Stay, LeadingNewlines::One),
                );
                self.print_expr(script_name);
                self.backspace();
                self.print_newline(IndentationMove::Stay);
                self.print_statements(body);
            },
        }
        let ghost after_match = self.output@;
        let okay_to_not_have_semicolon = self.do_not_need_semicolon.pop().is_some();
        if stmt.has_semicolon == false && okay_to_not_have_semicolon == false {
            match &stmt.statement {
                Statement::Comment { .. }
                | Statement::MultilineComment { .. }
                | Statement::RegionBegin(..)
                | Statement::RegionEnd(..)
                | Statement::Macro(..) => {},
                _ => {
                    // make sure a newline always follows
                    let mut newlines = self.backspace_whitespace();
                    let ghost t0 = self.output@;
                    if let Some(last_entry) = self.last_entry() {
                        if str_eq(last_entry, RBRACE) {
                        } else if str_eq(last_entry, SEMICOLON) {
                            if newlines < 1 {
                                newlines = 1;
                            }
                        } else {
                            self.print_semicolon(true);
                            if newlines < 1 {
                                newlines = 1;
                            }
                        }
                        proof {
                            lemma_keeps_trans(after_match, t0, self.output@);
                        }
                        let ghost t1 = self.output@;
                        let mut k: usize = 0;
                        while k < newlines
                            invariant
                                keeps_words(t1, self.output@),
                                keeps_words(after_match, t1),
                                self.lang_config == old(self).lang_config,
                                ok ==> self.wf(),
                                k <= newlines,
                            decreases newlines - k,
                        {
                            self.print_newline(IndentationMove::Stay);
                            proof {
                                lemma_keeps_trans(t1, self.output@, self.output@);
                            }
                            k = k + 1;
                        }
                        proof {
                            lemma_keeps_trans(after_match, t1, self.output@);
                        }
                    }
                },
            }
        }
        proof {
            if no_switch_or_enum(*stmt) {
                assert(keeps_words(after_match, self.output@));
                lemma_keeps_trans(old(self).output@, after_match, self.output@);
                if header_pieces(*stmt) is Some {
                    let k = (old(self).output@.len() + header_pieces(*stmt)->0.len()) as int;
                    lemma_punctuation_not_ws();
                    assert(after_match[k]@ == LBRACE@);
                    assert(!is_ws_piece(after_match[k]@));
                }
                if stmt.statement is Block && !spec_on_whitespace_line(old(self).output@) {
                    let k = with_space(old(self).pieces()).len() as int;
                    reveal_pieces();
                    assert(after_match[k]@ == LBRACE@);
                    lemma_punctuation_not_ws();
                    assert(!is_ws_piece(after_match[k]@));
                }
            }
        }
    }

    /// How a token is printed.
    pub fn get_token_name(token_type: &'a TokenType<'a>) -> (r: &'a str)
        ensures
            r@ == token_type.spec_name(),
    {
        proof {
            reveal_token_names();
        }
        match token_type {
            TokenType::LeftParen => "(",
            TokenType::RightParen => ")",
            TokenType::LeftBrace => "{",
            TokenType::RightBrace => "}",
            TokenType::LeftBracket => "[",
            TokenType::RightBracket => "]",
            TokenType::Comma => ",",
            TokenType::Dot => ".",
            TokenType::Colon => ":",
            TokenType::Semicolon => ";",
            TokenType::Slash => "/",
            TokenType::Backslash => "\\",
            TokenType::Star => "*",
            TokenType::Mod => "%",
            TokenType::Hashtag => "#",
            TokenType::Then => "then",
            TokenType::PlusEquals => "+=",
            TokenType::MinusEquals => "-=",
            TokenType::StarEquals => "*=",
            TokenType::SlashEquals => "/=",
            TokenType::BitXorEquals => "^=",
            TokenType::BitOrEquals => "|=",
            TokenType::BitAndEquals => "&=",
            TokenType::ModEquals => "%=",
            TokenType::ListIndexer => "[|",
            TokenType::MapIndexer => "[?",
            TokenType::GridIndexer => "[#",
            TokenType::ArrayIndexer => "[@",
            TokenType::Minus => "-",
            TokenType::Plus => "+",
            TokenType::Incrementer => "++",
            TokenType::Decrementer => "--",
            TokenType::Bang => "!",
            TokenType::Hook => "?",
            TokenType::Tilde => "~",
            TokenType::LessThanGreaterThan => "<>",
            TokenType::LogicalAnd => "&&",
            TokenType::LogicalOr => "||",
            TokenType::LogicalXor => "^^",
            TokenType::BitAnd => "&",
            TokenType::BitOr => "|",
            TokenType::BitXor => "^",
            TokenType::BitLeft => "<<",
            TokenType::BitRight => ">>",
            TokenType::BangEqual => "!=",
            TokenType::Equal => "=",
            TokenType::EqualEqual => "==",
            TokenType::Greater => ">",
            TokenType::GreaterEqual => ">=",
            TokenType::Less => "<",
            TokenType::LessEqual => "<=",
            TokenType::Define => "#define",
            TokenType::Var => "var",
            TokenType::GlobalVar => "globalvar",
            TokenType::If => "if",
            TokenType::Else => "else",
            TokenType::Return => "return",
            TokenType::For => "for",
            TokenType::Function => "function",
            TokenType::Constructor => "constructor",
            TokenType::New => "new",
            TokenType::Delete => "delete",
            TokenType::Repeat => "repeat",
            TokenType::While => "while",
            TokenType::With => "with",
            TokenType::Do => "do",
            TokenType::Until => "until",
            TokenType::Switch => "switch",
            TokenType::Case => "case",
            TokenType::DefaultCase => "default",
            TokenType::Break => "break",
            TokenType::Exit => "exit",
            TokenType::Enum => "enum",
            TokenType::AndAlias => "and",
            TokenType::OrAlias => "or",
            TokenType::XorAlias => "xor",
            TokenType::NotAlias => "not",
            TokenType::ModAlias => "mod",
            TokenType::Div => "div",
            TokenType::Newline(_) => "\n",
            TokenType::Macro(literal)
            | TokenType::RegionBegin(literal)
            | TokenType::RegionEnd(literal)
            | TokenType::Identifier(literal)
            | TokenType::String(literal)
            | TokenType::Number(literal)
            | TokenType::NumberStartDot(literal)
            | TokenType::NumberEndDot(literal)
            | TokenType::Comment(literal)
            | TokenType::MultilineComment(literal)
            | TokenType::UnidentifiedInput(literal) => literal,
        }
    }
}

/// The indentation level after a move; it stays within `0..=usize::MAX`.
pub open spec fn next_indentation(level: int, indentation_move: IndentationMove) -> int {
    match indentation_move {
        IndentationMove::Right => if level < usize::MAX { level + 1 } else { level },
        IndentationMove::Stay => level,
        IndentationMove::Left => if level > 0 { level - 1 } else { 0 },
    }
}

/// Moving a level right and then a level left comes back to the same level,
/// below the largest one.
pub proof fn lemma_indent_right_then_left(level: int)
    requires
        0 <= level < usize::MAX,
    ensures
        next_indentation(next_indentation(level, IndentationMove::Right), IndentationMove::Left) == level,
{
}

/// Block instructions combined hold each of their parts.
pub proof fn lemma_block_union_contains(a: BlockInstruction, b: BlockInstruction)
    ensures
        a.union_spec(b) & a.spec_bits() == a.spec_bits(),
        a.union_spec(b) & b.spec_bits() == b.spec_bits(),
{
    let x = a.spec_bits();
    let y = b.spec_bits();
    assert((x | y) & x == x) by (bit_vector);
    assert((x | y) & y == y) by (bit_vector);
}

/// `n` space pieces.
pub open spec fn spaces(n: nat) -> Seq<&'static str>
    decreases n,
{
    if n == 0 {
        Seq::empty()
    } else {
        spaces((n - 1) as nat).push(SPACE)
    }
}

/// The pieces of `level` levels of indentation.
pub open spec fn indentation_pieces(level: nat, config: LangConfig) -> Seq<&'static str>
    decreases level,
{
    if level == 0 {
        Seq::empty()
    } else if config.use_spaces {
        indentation_pieces((level - 1) as nat, config) + spaces(config.space_size as nat)
    } else {
        indentation_pieces((level - 1) as nat, config).push(TAB)
    }
}

/// Whether a piece is a space, a tab or a newline.
fn is_ws_str(piece: &str) -> (r: bool)
    ensures
        r == is_ws_piece(piece@),
{
    proof {
        reveal_pieces();
    }
    str_eq(piece, SPACE) || str_eq(piece, TAB) || str_eq(piece, NEWLINE)
}

/// The output is empty, or it ends with a piece that is not whitespace
/// followed by exactly `n` newlines.
pub open spec fn ends_with_newlines(ps: Seq<Seq<char>>, n: nat) -> bool {
    ps.len() == 0 || (ps.len() > n && !is_ws_piece(ps[ps.len() - n - 1]) && ps.subrange(
        ps.len() - n,
        ps.len() as int,
    ) == newlines(n))
}

/// Text that ends with `n` newline characters.
pub open spec fn ends_with_newline_chars(text: Seq<char>, n: nat) -> bool {
    text.len() >= n && forall|i: int| text.len() - n <= i < text.len() ==> #[trigger] text[i] == '\n'
}

/// Pieces that end with `n` newline pieces join into text that ends with `n`
/// newline characters.
pub proof fn lemma_joined_newlines(a: Seq<Seq<char>>, n: nat)
    ensures
        ends_with_newline_chars(joined(a + newlines(n)), n),
    decreases n,
{
    if n > 0 {
        let ps = a + newlines(n);
        lemma_joined_newlines(a, (n - 1) as nat);
        assert(ps.drop_last() =~= a + newlines((n - 1) as nat));
        assert(ps.last() == newline_text());
        let t = joined(ps);
        let u = joined(ps.drop_last());
        assert(t == u + newline_text());
        assert forall|i: int| t.len() - n <= i < t.len() implies #[trigger] t[i] == '\n' by {
            if i < t.len() - 1 {
                assert(t[i] == u[i]);
            }
        }
    }
}

proof fn lemma_newlines_len(n: nat)
    ensures
        newlines(n).len() == n,
    decreases n,
{
    if n > 0 {
        lemma_newlines_len((n - 1) as nat);
    }
}

/// Stripping trailing whitespace twice is stripping it once, and what it
/// leaves is empty or ends with a piece that is not whitespace.
proof fn lemma_strip_ends_well(ps: Seq<Seq<char>>)
    ensures
        strip_trailing_ws(strip_trailing_ws(ps)) == strip_trailing_ws(ps),
        strip_trailing_ws(ps).len() == 0 || !is_ws_piece(strip_trailing_ws(ps).last()),
        ps.len() > 0 && !is_ws_piece(ps.last()) ==> strip_trailing_ws(ps) == ps,
    decreases ps.len(),
{
    if ps.len() > 0 && is_ws_piece(ps.last()) {
        lemma_strip_ends_well(ps.drop_last());
    }
}

proof fn lemma_newlines_in_front(ps: Seq<&str>, pos: int, len: int)
    requires
        0 <= pos < len,
    ensures
        newlines_in(ps, pos, len) == newlines_in(ps, pos + 1, len) + if ps[pos]@ == newline_text() { 1int } else { 0int },
    decreases len - pos,
{
    if pos + 1 < len {
        lemma_newlines_in_front(ps, pos, len - 1);
        assert(newlines_in(ps, pos + 1, len) == newlines_in(ps, pos + 1, len - 1) + if ps[len - 1]@ == newline_text() { 1int } else { 0int });
    } else {
        assert(newlines_in(ps, pos + 1, len) == 0);
        assert(newlines_in(ps, pos, pos) == 0);
    }
}

} // verus!
