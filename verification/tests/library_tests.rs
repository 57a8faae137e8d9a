use gml_fmt::config::{file_source, is_gml_extension, FileSource};
use gml_fmt::expressions::{Expr, ExprBoxInterior};
use gml_fmt::error_tokens::{Error, LexError};
use gml_fmt::lang_config::{is_config_file_name, newlines_at_end, space_size, use_spaces};
use gml_fmt::lex_token::{Token, TokenType};
use gml_fmt::parser::{ParseError, Parser};
use gml_fmt::printer::{BlockInstruction, CommentAndNewlinesInstruction, IndentationMove, LeadingNewlines, Printer};
use gml_fmt::scanner::{fits_scanner, Scanner};
use gml_fmt::statements::{Statement, StatementWrapper};
use gml_fmt::{is_ignored, run, run_snippet, Config, LangConfig, PrintFlags};
use std::path::PathBuf;

fn first_statement(src: &str) -> Box<StatementWrapper<'_>> {
    Parser::new(src).build_ast().unwrap().remove(0)
}

fn config(use_spaces: bool, space_size: usize, newlines_at_end: usize) -> LangConfig {
    LangConfig { use_spaces, space_size, newlines_at_end }
}

#[test]
fn readme_example() {
    let input = "if (a(b[i])&& b[i] .c < 0)
    {

    var c = b[i].q
    var l = b[i].q



    b[i].q = c;
    b[i].q[0] = 30;
    
    }";
    let output = run(input, &LangConfig::default()).unwrap();
    assert_eq!(
        output,
        "if (a(b[i]) && b[i].c < 0) {\n    var c = b[i].q;\n    var l = b[i].q;\n    b[i].q = c;\n    b[i].q[0] = 30;\n}\n"
    );
}

#[test]
fn output_ends_with_configured_newlines() {
    let input = "x = 1;\n\n\n   \n";
    assert_eq!(run(input, &config(true, 4, 1)).unwrap(), "x = 1;\n");
    assert_eq!(run(input, &config(true, 4, 3)).unwrap(), "x = 1;\n\n\n");
    assert_eq!(run(input, &config(true, 4, 0)).unwrap(), "x = 1;");
}

#[test]
fn empty_and_blank_sources_format_to_nothing() {
    assert_eq!(run("", &LangConfig::default()).unwrap(), "");
    assert_eq!(run("  \t \r", &LangConfig::default()).unwrap(), "");
    assert_eq!(run("\n\n\n", &LangConfig::default()).unwrap(), "");
}

#[test]
fn indentation_follows_the_configuration() {
    let input = "if (x) {\ny = 1;\nz = 2;\n}";
    assert_eq!(run(input, &config(true, 2, 1)).unwrap(), "if (x) {\n  y = 1;\n  z = 2;\n}\n");
    assert_eq!(run(input, &config(false, 4, 1)).unwrap(), "if (x) {\n\ty = 1;\n\tz = 2;\n}\n");
}

#[test]
fn snippet_uses_the_default_configuration() {
    assert_eq!(run_snippet("x=1", None).unwrap(), "x = 1;\n");
    assert_eq!(run_snippet("x=1", Some(config(true, 4, 2))).unwrap(), "x = 1;\n\n");
}

#[test]
fn unexpected_end_is_an_error() {
    match run("x = ", &LangConfig::default()) {
        Err(ParseError::UnexpectedEnd) => {}
        other => panic!("expected UnexpectedEnd, got {:?}", other),
    }
}

#[test]
fn unexpected_token_is_an_error() {
    match run("a[1] = );", &LangConfig::default()) {
        Err(ParseError::UnexpectedToken(token)) => {
            assert_eq!(token, Token::new(TokenType::RightParen, 0, 7));
        }
        other => panic!("expected UnexpectedToken, got {:?}", other),
    }
}

#[test]
fn unknown_token_in_switch_is_an_error() {
    match run("switch (x) { y }", &LangConfig::default()) {
        Err(ParseError::UnknownTokenInSwitch(token)) => {
            assert_eq!(token, Token::new(TokenType::Identifier("y"), 0, 13));
        }
        other => panic!("expected UnknownTokenInSwitch, got {:?}", other),
    }
}

#[test]
fn ignore_marker_is_found_anywhere() {
    assert!(is_ignored("// @gml_fmt ignore\nx=1"));
    assert!(is_ignored("x = 1; // @gml_fmt ignore"));
    assert!(!is_ignored("// @gml_fmt ignor\nx=1"));
    assert!(!is_ignored(""));
}

#[test]
fn small_sources_fit_the_scanner() {
    assert!(fits_scanner(""));
    assert!(fits_scanner("var x = \"é\";"));
}

#[test]
fn keywords_are_looked_up_whole() {
    let tokens: Vec<Token> = Scanner::new("var varx with div").collect();
    assert_eq!(
        tokens,
        vec![
            Token::new(TokenType::Var, 0, 0),
            Token::new(TokenType::Identifier("varx"), 0, 4),
            Token::new(TokenType::With, 0, 9),
            Token::new(TokenType::Div, 0, 14),
        ]
    );
}

#[test]
fn scanning_one_token_at_a_time() {
    let mut scanner = Scanner::new("\ta\n\tb");
    assert_eq!(scanner.lex_input(), Some(Token::new(TokenType::Identifier("a"), 0, 1)));
    assert_eq!(scanner.lex_input(), Some(Token::new(TokenType::Newline(1), 0, 2)));
    assert_eq!(scanner.lex_input(), Some(Token::new(TokenType::Identifier("b"), 1, 0)));
    assert_eq!(scanner.lex_input(), None);
    assert_eq!(scanner.lex_input(), None);
}

#[test]
fn token_names_are_their_spelling() {
    assert_eq!(Printer::get_token_name(&TokenType::LessThanGreaterThan), "<>");
    assert_eq!(Printer::get_token_name(&TokenType::GlobalVar), "globalvar");
    assert_eq!(Printer::get_token_name(&TokenType::Newline(3)), "\n");
    assert_eq!(Printer::get_token_name(&TokenType::Comment("// hi")), "// hi");
    let token = Token::new(TokenType::Identifier("abc"), 2, 5);
    assert_eq!(token.print_name(), "abc");
    assert_eq!(*token.token_type(), TokenType::Identifier("abc"));
    assert_eq!(*token.line_number(), 2);
    assert!(TokenType::Identifier("abc").is_ident());
    assert!(!TokenType::Var.is_ident());
}

#[test]
fn fresh_printer_prints_nothing() {
    let config = LangConfig::default();
    let printer = Printer::new(10, &config);
    assert_eq!(printer.get_output(10), "");
}

#[test]
fn parser_keeps_newlines_as_statements() {
    let ast = Parser::new("x = 1;\ny = 2;").build_ast().unwrap();
    assert_eq!(ast.len(), 3);
    assert!(ast.iter().all(|s| matches!(s.statement, Statement::ExpresssionStatement { .. })));
    assert!(ast[0].has_semicolon);
    assert!(!ast[1].has_semicolon);
    assert!(ast[2].has_semicolon);
}

#[test]
fn flags_combine() {
    let flags = PrintFlags::overwrite().union(PrintFlags::logs());
    assert!(flags.contains(PrintFlags::overwrite()));
    assert!(flags.contains(PrintFlags::logs()));
    assert!(!flags.contains(PrintFlags::log_ast()));
    assert!(flags.contains(PrintFlags::no_output()));
    assert_eq!(flags.bits(), 3);
    assert_eq!(PrintFlags::scanner_logs().bits(), 4);
    let block = BlockInstruction::no_newline_after_block().union(BlockInstruction::must_indent());
    assert!(block.contains(BlockInstruction::must_indent()));
    assert!(!BlockInstruction::none().contains(BlockInstruction::must_indent()));
}

#[test]
fn configuration_defaults() {
    let config = LangConfig::default();
    assert!(config.use_spaces);
    assert_eq!(config.space_size, 4);
    assert_eq!(config.newlines_at_end, 1);
    assert!(use_spaces());
    assert_eq!(space_size(), 4);
    assert_eq!(newlines_at_end(), 1);
    assert!(is_config_file_name("gml_fmt.toml"));
    assert!(is_config_file_name(".gml_fmt.toml"));
    assert!(is_config_file_name(".gml_fmt"));
    assert!(!is_config_file_name("gml_fmt"));
}

#[test]
fn file_sources() {
    assert_eq!(file_source(false, false, false), Err("Filepath given does not exist."));
    assert_eq!(file_source(true, true, true), Err("Passed -f or --file but gave a directory filepath."));
    assert_eq!(file_source(true, true, false), Ok(FileSource::Directory));
    assert_eq!(file_source(true, false, true), Ok(FileSource::SingleFile));
    assert_eq!(file_source(true, false, false), Err("Did not pass -f but gave a filepath. Pass -f for files."));
    assert!(is_gml_extension("gml"));
    assert!(!is_gml_extension("yy"));
}

#[test]
fn files_are_kept_in_order() {
    let mut config = Config { files: Vec::new(), print_flags: PrintFlags::no_output() };
    config.load_file_path(PathBuf::from("a.gml"));
    config.load_file_path(PathBuf::from("b.gml"));
    assert_eq!(config.files, vec![PathBuf::from("a.gml"), PathBuf::from("b.gml")]);
}

#[test]
fn errors_start_on_line_zero() {
    let error = Error::new(LexError::Unidentified);
    assert_eq!(error.error_type, LexError::Unidentified);
    assert_eq!(error.line_number, 0);
}

#[test]
fn scanning_twice_gives_the_same_tokens() {
    let source = "var x = @\"a\nb\"; /* c\n */ #macro m 1\n";
    let first: Vec<Token> = Scanner::new(source).collect();
    let second: Vec<Token> = Scanner::new(source).collect();
    assert_eq!(first, second);
}

#[test]
fn token_lines_never_go_down() {
    let source = "a\n@\"x\ny\" b /* c\n\n */ d\n#macro m \\\n 2\ne";
    let tokens: Vec<Token> = Scanner::new(source).collect();
    let lines: Vec<u32> = tokens.iter().map(|t| t.line_number).collect();
    assert_eq!(lines, vec![0, 0, 1, 2, 2, 4, 4, 5, 6, 7]);
    assert!(lines.windows(2).all(|w| w[0] <= w[1]));
}

#[test]
fn reserved_words_print_as_spelled() {
    let words = [
        "var", "and", "or", "not", "if", "else", "function", "constructor", "new", "delete", "return", "for",
        "repeat", "while", "do", "until", "switch", "case", "default", "mod", "div", "break", "exit", "enum",
        "with", "then", "globalvar",
    ];
    for word in words.iter() {
        let tokens: Vec<Token> = Scanner::new(word).collect();
        assert_eq!(tokens.len(), 1);
        assert!(!tokens[0].token_type.is_ident());
        assert_eq!(Printer::get_token_name(&tokens[0].token_type), *word);
    }
}

#[test]
fn nested_blocks_return_to_their_indentation() {
    let input = "if (a) {\nif (b) {\nc();\n}\nd();\n}\ne();";
    assert_eq!(
        run(input, &LangConfig::default()).unwrap(),
        "if (a) {\n    if (b) {\n        c();\n    }\n    d();\n}\ne();\n"
    );
}

#[test]
fn blank_lines_collapse_to_one() {
    let input = "x = 1;\n\n\n\n\ny = 2;\n\n\n";
    let output = run(input, &LangConfig::default()).unwrap();
    assert_eq!(output, "x = 1;\n\ny = 2;\n");
    let nested = run("if (a) {\nb = 1;\n\n\n\nc = 2;\n}", &LangConfig::default()).unwrap();
    assert_eq!(nested, "if (a) {\n    b = 1;\n    \n    c = 2;\n}\n");
}

#[test]
fn comment_instructions_keep_their_settings() {
    let plain = CommentAndNewlinesInstruction::new(IndentationMove::Right, LeadingNewlines::All);
    assert!(matches!(plain.indentation_move, IndentationMove::Right));
    assert_eq!(plain.leading_newlines, LeadingNewlines::All);
    assert!(!plain.respect_user_newline);
    assert!(!plain.trailing_comment);
    let respecting = CommentAndNewlinesInstruction::new_respect_users(IndentationMove::Left, LeadingNewlines::Zero);
    assert!(matches!(respecting.indentation_move, IndentationMove::Left));
    assert_eq!(respecting.leading_newlines, LeadingNewlines::Zero);
    assert!(respecting.respect_user_newline);
    let default = CommentAndNewlinesInstruction::default();
    assert!(matches!(default.indentation_move, IndentationMove::Stay));
    assert_eq!(default.leading_newlines, LeadingNewlines::One);
}

#[test]
fn statement_wrappers_know_expression_statements() {
    let ast = Parser::new("x;\nbreak;").build_ast().unwrap();
    assert!(ast[0].hold_expr());
    let wrapped = StatementWrapper::new(Statement::Break, true);
    assert!(!wrapped.hold_expr());
    assert!(wrapped.has_semicolon);
}

#[test]
fn snippets_of_blanks_format_to_nothing() {
    assert_eq!(run_snippet(" \t\r ", None).unwrap(), "");
    assert_eq!(run_snippet("", Some(config(false, 2, 3))).unwrap(), "");
}

#[test]
fn simple_statements_and_comments_print_as_written() {
    assert_eq!(run("x;", &LangConfig::default()).unwrap(), "x;\n");
    assert_eq!(run("// a\n/* b */", &LangConfig::default()).unwrap(), "// a\n/* b */\n");
    assert_eq!(run("f(a,b,c,)", &LangConfig::default()).unwrap(), "f(a, b, c,);\n");
}

#[test]
fn fraction_at_the_end_of_the_source_keeps_its_digits() {
    let tokens: Vec<Token> = Scanner::new("x = 3.14").collect();
    assert_eq!(
        tokens,
        vec![
            Token::new(TokenType::Identifier("x"), 0, 0),
            Token::new(TokenType::Equal, 0, 2),
            Token::new(TokenType::Number("3.14"), 0, 4),
        ]
    );
    let tokens: Vec<Token> = Scanner::new("3.").collect();
    assert_eq!(tokens, vec![Token::new(TokenType::NumberEndDot("3."), 0, 0)]);
    assert_eq!(run("x = 3.14", &LangConfig::default()).unwrap(), "x = 3.14;\n");
    assert_eq!(run("var z = 3.", &LangConfig::default()).unwrap(), "var z = 3.0;\n");
}

#[test]
fn leading_tokens_choose_the_statement() {
    let ast = Parser::new("a;b").build_ast().unwrap();
    assert_eq!(ast.len(), 2);
    assert!(ast.iter().all(|s| matches!(s.statement, Statement::ExpresssionStatement { .. })));

    let ast = Parser::new("// note\n#region r\n#endregion\n#macro M 1").build_ast().unwrap();
    match &ast[0].statement {
        Statement::Comment { comment } => assert_eq!(*comment, Token::new(TokenType::Comment("// note"), 0, 0)),
        other => panic!("expected a comment, got {:?}", other),
    }
    assert!(!ast[0].has_semicolon);
    assert!(ast.iter().any(|s| matches!(s.statement, Statement::RegionBegin(_))));
    assert!(ast.iter().any(|s| matches!(s.statement, Statement::RegionEnd(_))));
    assert!(ast.iter().any(|s| matches!(s.statement, Statement::Macro(_))));

    assert!(matches!(first_statement("if (a) b;").statement, Statement::If { .. }));
    assert!(matches!(first_statement("while (a) b;").statement, Statement::WhileWithRepeat { .. }));
    assert!(matches!(first_statement("repeat (3) b;").statement, Statement::WhileWithRepeat { .. }));
    assert!(matches!(first_statement("do { a; } until (b);").statement, Statement::DoUntil { .. }));
    assert!(matches!(first_statement("for (i = 0; i < 3; i++) { }").statement, Statement::For { .. }));
    assert!(matches!(first_statement("switch (a) { case 1: break; }").statement, Statement::Switch { .. }));
    assert!(matches!(first_statement("{ a; }").statement, Statement::Block { .. }));
    assert!(matches!(first_statement("enum E { A, B }").statement, Statement::EnumDeclaration { .. }));
    assert!(matches!(first_statement("return;").statement, Statement::Return { expression: None }));
    assert!(matches!(first_statement("break;").statement, Statement::Break));
    assert!(matches!(first_statement("exit;").statement, Statement::Exit));
    match first_statement("globalvar g;").statement {
        Statement::VariableDeclList { starting_var_type, var_decl, .. } => {
            assert_eq!(starting_var_type, Token::new(TokenType::GlobalVar, 0, 0));
            assert_eq!(var_decl.lines.len(), 1);
            assert!(var_decl.lines[0].expr.say_var.is_none());
        }
        other => panic!("expected a declaration, got {:?}", other),
    }
}

#[test]
fn a_declaration_lists_its_variables() {
    let ast = Parser::new("var a = 1, var b, c;").build_ast().unwrap();
    match &ast[0].statement {
        Statement::VariableDeclList { var_decl, .. } => {
            assert_eq!(var_decl.lines.len(), 3);
            assert!(var_decl.lines[0].expr.say_var.is_none());
            assert_eq!(var_decl.lines[1].expr.say_var, Some(Token::new(TokenType::Var, 0, 11)));
            assert!(var_decl.lines[1].expr.say_var_comments.is_some());
            assert!(!var_decl.has_end_delimiter);
        }
        other => panic!("expected a declaration, got {:?}", other),
    }
    assert!(ast[0].has_semicolon);
}

#[test]
fn an_incomplete_assignment_does_not_parse() {
    assert!(matches!(Parser::new("x =").build_ast(), Err(ParseError::UnexpectedEnd)));
}

#[test]
fn flat_expressions_print_their_parts_in_order() {
    let cfg = LangConfig::default();
    assert_eq!(run("a=b+c*d;", &cfg).unwrap(), "a = b + c * d;\n");
    assert_eq!(run("x = -y;", &cfg).unwrap(), "x = -y;\n");
    assert_eq!(run("x = not y;", &cfg).unwrap(), "x = not y;\n");
    assert_eq!(run("x = .5 - 2.;", &cfg).unwrap(), "x = 0.5 - 2.0;\n");
    assert_eq!(run("return a+b;", &cfg).unwrap(), "return a + b;\n");
    assert_eq!(run("return;", &cfg).unwrap(), "return;\n");
    assert_eq!(run("break;", &cfg).unwrap(), "break;\n");
    assert_eq!(run("exit;", &cfg).unwrap(), "exit;\n");
}

#[test]
fn comments_after_code_are_kept() {
    let cfg = LangConfig::default();
    assert_eq!(run("x = 1; // note", &cfg).unwrap(), "x = 1; // note\n");
    assert_eq!(run("x = 1 /* a */ + 2;", &cfg).unwrap(), "x = 1 /* a */ + 2;\n");
}

#[test]
fn comment_only_sources_keep_their_comments() {
    assert_eq!(run("// a", &LangConfig::default()).unwrap(), "// a\n");
    assert_eq!(run("/* a */   /* b */", &config(true, 4, 2)).unwrap(), "/* a */ /* b */\n\n");
    assert_eq!(run_snippet("// a", Some(config(true, 4, 0))).unwrap(), "// a");
}

fn flat_tokens_of<'a>(e: &ExprBoxInterior<'a>, out: &mut Vec<Token<'a>>) {
    match &e.expr {
        Expr::Identifier { name, .. } => out.push(*name),
        Expr::Literal { literal_token, .. } => out.push(*literal_token),
        Expr::Unary { operator, right, .. } => {
            out.push(*operator);
            flat_tokens_of(right, out);
        }
        Expr::Binary { left, operator, right, .. } | Expr::Assign { left, operator, right, .. } => {
            flat_tokens_of(left, out);
            out.push(*operator);
            flat_tokens_of(right, out);
        }
        other => panic!("not a flat expression: {:?}", other),
    }
}

#[test]
fn flat_expressions_keep_their_tokens_in_order() {
    let source = "a = b + c * -d;";
    let all: Vec<Token> = Scanner::new(source).collect();
    let ast = Parser::new(source).build_ast().unwrap();
    assert_eq!(ast.len(), 1);
    assert!(ast[0].has_semicolon);
    match &ast[0].statement {
        Statement::ExpresssionStatement { expression } => {
            let mut tokens = Vec::new();
            flat_tokens_of(expression, &mut tokens);
            assert_eq!(tokens, all[..all.len() - 1].to_vec());
            assert_eq!(all[all.len() - 1].token_type, TokenType::Semicolon);
        }
        other => panic!("expected an expression statement, got {:?}", other),
    }
}

#[test]
fn blank_sources_parse_to_newline_statements() {
    let ast = Parser::new(" \n\t\n").build_ast().unwrap();
    assert_eq!(ast.len(), 2);
    for st in &ast {
        assert!(!st.has_semicolon);
        match &st.statement {
            Statement::ExpresssionStatement { expression } => {
                assert!(matches!(expression.expr, Expr::Newline));
                assert!(expression.trailing_comments.is_none());
            }
            other => panic!("expected a newline statement, got {:?}", other),
        }
    }
}

#[test]
fn token_lines_count_the_newlines_before_them() {
    let source = "a\n\n/* x\ny */ b\n@'p\nq' c";
    let tokens: Vec<Token> = Scanner::new(source).collect();
    let lines: Vec<u32> = tokens.iter().map(|t| *t.line_number()).collect();
    assert_eq!(lines, vec![0, 0, 1, 2, 3, 3, 4, 5]);
}

#[test]
fn comments_between_lines_are_kept() {
    let out = run("x = 1 // a\n// b\n\n/* c */\ny = 2;", &LangConfig::default()).unwrap();
    assert!(out.contains("// a"));
    assert!(out.contains("// b"));
    assert!(out.contains("/* c */"));
}

#[test]
fn printing_keeps_every_word_in_order() {
    let out = run("total = f(a,\n\n  b) + g[ 1 ] . h;", &LangConfig::default()).unwrap();
    let mut at = 0;
    for word in ["total", "=", "f", "a", "b", "+", "g", "1", "h"] {
        let found = out[at..].find(word).map(|k| at + k);
        assert!(found.is_some(), "{} missing from {:?}", word, out);
        at = found.unwrap() + word.len();
    }
}

#[test]
fn plain_statements_get_one_space_around_operators() {
    let output = run("x=a+b*c;y  =  d-1;", &LangConfig::default()).unwrap();
    assert_eq!(output, "x = a + b * c; y = d - 1;\n");
    let output = run("total+=\"s\";", &config(true, 4, 2)).unwrap();
    assert_eq!(output, "total += \"s\";\n\n");
}

#[test]
fn plain_statements_parse_to_simple_statements() {
    let ast = Parser::new("a = b || c && d;e;").build_ast().unwrap();
    assert_eq!(ast.len(), 2);
    assert!(ast.iter().all(|s| s.has_semicolon && s.hold_expr()));
}

#[test]
fn a_source_cut_short_after_an_operator_fails_at_its_end() {
    assert!(matches!(run("a = 1; b = c *", &LangConfig::default()), Err(ParseError::UnexpectedEnd)));
    assert!(matches!(run_snippet("x +", None), Err(ParseError::UnexpectedEnd)));
    assert!(matches!(Parser::new("x = y; z <<").build_ast(), Err(ParseError::UnexpectedEnd)));
}

#[test]
fn lex_errors_read_their_kind_and_line() {
    assert_eq!(Error::new(LexError::Unidentified).text(), "Lex Error Unidentified on line 0.");
    let e = Error { error_type: LexError::Unidentified, line_number: 1204 };
    assert_eq!(e.text(), "Lex Error Unidentified on line 1204.");
}

#[test]
fn opening_braces_stay_on_the_line_of_their_statement() {
    let output = run("while (x)\n{\nx -= 1;\n}\n", &LangConfig::default()).unwrap();
    assert_eq!(output, "while (x) {\n    x -= 1;\n}\n");
}

#[test]
fn ternaries_accesses_groupings_and_arrays_print_flat() {
    let cfg = LangConfig::default();
    assert_eq!(run("x=a?b:c;", &cfg).unwrap(), "x = a ? b : c;\n");
    assert_eq!(run("a.b=c;", &cfg).unwrap(), "a.b = c;\n");
    assert_eq!(run("x=(a+b)*c;", &cfg).unwrap(), "x = (a + b) * c;\n");
    assert_eq!(run("x=[1,2,3];", &cfg).unwrap(), "x = [1, 2, 3];\n");
}

#[test]
fn declarations_end_where_no_comma_continues_them() {
    let ast = Parser::new("var x = 2, y, var q").build_ast().unwrap();
    match &ast[0].statement {
        Statement::VariableDeclList { var_decl, .. } => {
            assert_eq!(var_decl.lines.len(), 3);
            assert!(!var_decl.has_end_delimiter);
        }
        other => panic!("expected a declaration, got {:?}", other),
    }
    let ast = Parser::new("var a, b,;").build_ast().unwrap();
    match &ast[0].statement {
        Statement::VariableDeclList { var_decl, .. } => {
            assert_eq!(var_decl.lines.len(), 2);
            assert!(var_decl.has_end_delimiter);
        }
        other => panic!("expected a declaration, got {:?}", other),
    }
}

#[test]
fn an_if_opens_its_block_on_the_condition_line() {
    let output = run("if (a < b)\n{\nc = 1;\n}\n", &LangConfig::default()).unwrap();
    assert_eq!(output, "if (a < b) {\n    c = 1;\n}\n");
    let output = run("repeat (3)\n\n{\nc += 1;\n}", &config(false, 4, 1)).unwrap();
    assert_eq!(output, "repeat (3) {\n\tc += 1;\n}\n");
}

#[test]
fn plain_jumps_format_like_plain_statements() {
    let output = run("x=1;return x+1;break;exit;return;", &LangConfig::default()).unwrap();
    assert_eq!(output, "x = 1; return x + 1; break; exit; return;\n");
}
