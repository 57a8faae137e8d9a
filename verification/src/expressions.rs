use crate::lex_token::Token;
use crate::statements::DelimitedLines;
use vstd::prelude::*;

verus! {

/// Newlines and comments that the source has at some place of an expression
/// or statement; `None` when there are none.
pub type CommentsAndNewlines<'a> = Option<Vec<Token<'a>>>;

pub type ExprBox<'a> = Box<ExprBoxInterior<'a>>;

/// An expression and the newlines and comments that follow it.
#[derive(Debug)]
pub struct ExprBoxInterior<'a> {
    pub expr: Expr<'a>,
    pub trailing_comments: CommentsAndNewlines<'a>,
}

#[derive(Debug)]
pub enum Expr<'a> {
    Call {
        procedure_name: ExprBox<'a>,
        comments_and_newlines_after_lparen: CommentsAndNewlines<'a>,
        arguments: DelimitedLines<'a, ExprBox<'a>>,
    },
    Function {
        comments_after_control_word: CommentsAndNewlines<'a>,
        call: ExprBox<'a>,
        comments_after_rparen: CommentsAndNewlines<'a>,
        is_constructor: bool,
    },
    StructOperator {
        token: Token<'a>,
        comments_before_expression: CommentsAndNewlines<'a>,
        expression: ExprBox<'a>,
    },
    Binary {
        left: ExprBox<'a>,
        operator: Token<'a>,
        comments_and_newlines_between_op_and_r: CommentsAndNewlines<'a>,
        right: ExprBox<'a>,
    },
    Grouping {
        expressions: Vec<ExprBox<'a>>,
        comments_and_newlines_after_lparen: CommentsAndNewlines<'a>,
        comments_and_newlines_after_rparen: CommentsAndNewlines<'a>,
    },
    ArrayLiteral {
        comments_and_newlines_after_lbracket: CommentsAndNewlines<'a>,
        arguments: DelimitedLines<'a, ExprBox<'a>>,
    },
    Literal {
        literal_token: Token<'a>,
        comments: CommentsAndNewlines<'a>,
    },
    NumberStartDot {
        literal_token: Token<'a>,
        comments: CommentsAndNewlines<'a>,
    },
    NumberEndDot {
        literal_token: Token<'a>,
        comments: CommentsAndNewlines<'a>,
    },
    Unary {
        operator: Token<'a>,
        comments_and_newlines_between: CommentsAndNewlines<'a>,
        right: ExprBox<'a>,
    },
    Postfix {
        operator: Token<'a>,
        comments_and_newlines_between: CommentsAndNewlines<'a>,
        expr: ExprBox<'a>,
    },
    Assign {
        left: ExprBox<'a>,
        operator: Token<'a>,
        comments_and_newlines_between_op_and_r: CommentsAndNewlines<'a>,
        right: ExprBox<'a>,
    },
    Identifier {
        name: Token<'a>,
        comments: CommentsAndNewlines<'a>,
    },
    DotAccess {
        object_name: ExprBox<'a>,
        comments_between: CommentsAndNewlines<'a>,
        instance_variable: ExprBox<'a>,
    },
    DataStructureAccess {
        ds_name: ExprBox<'a>,
        access_type: Token<'a>,
        access_exprs: Vec<(CommentsAndNewlines<'a>, ExprBox<'a>)>,
    },
    Ternary {
        conditional: ExprBox<'a>,
        comments_and_newlines_after_q: CommentsAndNewlines<'a>,
        left: ExprBox<'a>,
        comments_and_newlines_after_colon: CommentsAndNewlines<'a>,
        right: ExprBox<'a>,
    },
    Newline,
    Comment {
        comment: Token<'a>,
    },
    MultilineComment {
        multiline_comment: Token<'a>,
    },
    UnidentifiedAsLiteral {
        literal_token: Token<'a>,
    },
}

} // verus!
