use gml_fmt::lex_token::{Token, TokenType};
use gml_fmt::scanner::Scanner;

#[test]
fn lex_symbols() {
    let input_string = "(){}[] // grouping stuff
! * + - / % & | ^ # ? // binary operators
= == <> > < >= <= // equality operators
.:;, // dots and commas
&& || ^^ // logical operators
+= -= *= /= ^= |= &= %= // set operators";

    let scanner = Scanner::new(input_string);
    let vec: Vec<Token> = scanner.collect();
    assert_eq!(
        vec,
        vec![
            // line 0
            Token::new(TokenType::LeftParen, 0, 0),
            Token::new(TokenType::RightParen, 0, 1),
            Token::new(TokenType::LeftBrace, 0, 2),
            Token::new(TokenType::RightBrace, 0, 3),
            Token::new(TokenType::LeftBracket, 0, 4),
            Token::new(TokenType::RightBracket, 0, 5),
            Token::new(TokenType::Comment("// grouping stuff"), 0, 7),
            Token::new(TokenType::Newline(0), 0, 24),
            // line 1
            Token::new(TokenType::Bang, 1, 0),
            Token::new(TokenType::Star, 1, 2),
            Token::new(TokenType::Plus, 1, 4),
            Token::new(TokenType::Minus, 1, 6),
            Token::new(TokenType::Slash, 1, 8),
            Token::new(TokenType::Mod, 1, 10),
            Token::new(TokenType::BitAnd, 1, 12),
            Token::new(TokenType::BitOr, 1, 14),
            Token::new(TokenType::BitXor, 1, 16),
            Token::new(TokenType::Hashtag, 1, 18),
            Token::new(TokenType::Hook, 1, 20),
            Token::new(TokenType::Comment("// binary operators"), 1, 22),
            Token::new(TokenType::Newline(0), 1, 41),
            // line 2
            Token::new(TokenType::Equal, 2, 0),
            Token::new(TokenType::EqualEqual, 2, 2),
            Token::new(TokenType::LessThanGreaterThan, 2, 5),
            Token::new(TokenType::Greater, 2, 8),
            Token::new(TokenType::Less, 2, 10),
            Token::new(TokenType::GreaterEqual, 2, 12),
            Token::new(TokenType::LessEqual, 2, 15),
            Token::new(TokenType::Comment("// equality operators"), 2, 18),
            Token::new(TokenType::Newline(0), 2, 39),
            // line 3
            Token::new(TokenType::Dot, 3, 0),
            Token::new(TokenType::Colon, 3, 1),
            Token::new(TokenType::Semicolon, 3, 2),
            Token::new(TokenType::Comma, 3, 3),
            Token::new(TokenType::Comment("// dots and commas"), 3, 5),
            Token::new(TokenType::Newline(0), 3, 23),
            // line 4
            Token::new(TokenType::LogicalAnd, 4, 0),
            Token::new(TokenType::LogicalOr, 4, 3),
            Token::new(TokenType::LogicalXor, 4, 6),
            Token::new(TokenType::Comment("// logical operators"), 4, 9),
            Token::new(TokenType::Newline(0), 4, 29),
            // line 5
            Token::new(TokenType::PlusEquals, 5, 0),
            Token::new(TokenType::MinusEquals, 5, 3),
            Token::new(TokenType::StarEquals, 5, 6),
            Token::new(TokenType::SlashEquals, 5, 9),
            Token::new(TokenType::BitXorEquals, 5, 12),
            Token::new(TokenType::BitOrEquals, 5, 15),
            Token::new(TokenType::BitAndEquals, 5, 18),
            Token::new(TokenType::ModEquals, 5, 21),
            Token::new(TokenType::Comment("// set operators"), 5, 24),
        ]
    );
}

#[test]
fn scanner_lex_strings() {
    let input_string = "\"This is a good string.\"
\"This is a bad string.
\"\"
\"This is another good string!\"
@\"This is a
multi-linestring. The demon's plaything!\"";
    let scanner = Scanner::new(input_string);
    let vec: Vec<Token> = scanner.collect();
    assert_eq!(
        &vec,
        &vec![
            Token::new(TokenType::String("\"This is a good string.\""), 0, 0),
            Token::new(TokenType::Newline(0), 0, 24),
            Token::new(TokenType::String("\"This is a bad string."), 1, 0),
            Token::new(TokenType::Newline(0), 1, 22),
            Token::new(TokenType::String("\"\""), 2, 0),
            Token::new(TokenType::Newline(0), 2, 2),
            Token::new(TokenType::String("\"This is another good string!\""), 3, 0),
            Token::new(TokenType::Newline(0), 3, 30),
            Token::new(
                TokenType::String("@\"This is a\nmulti-linestring. The demon's plaything!\""),
                4,
                0
            ),
        ]
    );
}

#[test]
fn scanner_lex_numbers() {
    let input_string = "314159
3.14159
314159.
.314159
4
9
0
.3";

    let scanner = Scanner::new(input_string);
    let vec: Vec<Token> = scanner.collect();
    assert_eq!(
        &vec,
        &vec![
            Token::new(TokenType::Number("314159"), 0, 0),
            Token::new(TokenType::Newline(0), 0, 6),
            Token::new(TokenType::Number("3.14159"), 1, 0),
            Token::new(TokenType::Newline(0), 1, 7),
            Token::new(TokenType::NumberEndDot("314159."), 2, 0),
            Token::new(TokenType::Newline(0), 2, 7),
            Token::new(TokenType::NumberStartDot(".314159"), 3, 0),
            Token::new(TokenType::Newline(0), 3, 7),
            Token::new(TokenType::Number("4"), 4, 0),
            Token::new(TokenType::Newline(0), 4, 1),
            Token::new(TokenType::Number("9"), 5, 0),
            Token::new(TokenType::Newline(0), 5, 1),
            Token::new(TokenType::Number("0"), 6, 0),
            Token::new(TokenType::Newline(0), 6, 1),
            Token::new(TokenType::NumberStartDot(".3"), 7, 0),
        ]
    );
}

#[test]
fn scanner_lex_hex() {
    let input_string = "0123456789
0x01234567
0x0A1B2C3D4E5F6
0xABCDEF
0x
$012345
$0A1B2C3D4E5F6
$ABCDEF
$";

    let scanner = Scanner::new(input_string);
    let vec: Vec<Token> = scanner.collect();
    assert_eq!(
        &vec,
        &vec![
            Token::new(TokenType::Number("0123456789"), 0, 0),
            Token::new(TokenType::Newline(0), 0, 10),
            Token::new(TokenType::Number("0x01234567"), 1, 0),
            Token::new(TokenType::Newline(0), 1, 10),
            Token::new(TokenType::Number("0x0A1B2C3D4E5F6"), 2, 0),
            Token::new(TokenType::Newline(0), 2, 15),
            Token::new(TokenType::Number("0xABCDEF"), 3, 0),
            Token::new(TokenType::Newline(0), 3, 8),
            Token::new(TokenType::Number("0x"), 4, 0),
            Token::new(TokenType::Newline(0), 4, 2),
            Token::new(TokenType::Number("$012345"), 5, 0),
            Token::new(TokenType::Newline(0), 5, 7),
            Token::new(TokenType::Number("$0A1B2C3D4E5F6"), 6, 0),
            Token::new(TokenType::Newline(0), 6, 14),
            Token::new(TokenType::Number("$ABCDEF"), 7, 0),
            Token::new(TokenType::Newline(0), 7, 7),
            Token::new(TokenType::Number("$"), 8, 0),
        ]
    );
}

#[test]
fn scanner_lex_basic_identifiers() {
    let input_string = "a
Z
AbCdE
_test
_test123
test_123
testCase";

    let scanner = Scanner::new(input_string);
    let vec: Vec<Token> = scanner.collect();
    assert_eq!(
        &vec,
        &vec![
            Token::new(TokenType::Identifier("a"), 0, 0),
            Token::new(TokenType::Newline(0), 0, 1),
            Token::new(TokenType::Identifier("Z"), 1, 0),
            Token::new(TokenType::Newline(0), 1, 1),
            Token::new(TokenType::Identifier("AbCdE"), 2, 0),
            Token::new(TokenType::Newline(0), 2, 5),
            Token::new(TokenType::Identifier("_test"), 3, 0),
            Token::new(TokenType::Newline(0), 3, 5),
            Token::new(TokenType::Identifier("_test123"), 4, 0),
            Token::new(TokenType::Newline(0), 4, 8),
            Token::new(TokenType::Identifier("test_123"), 5, 0),
            Token::new(TokenType::Newline(0), 5, 8),
            Token::new(TokenType::Identifier("testCase"), 6, 0),
        ]
    )
}

#[test]
fn scanner_lex_reserved_keywords() {
    let input_string = "var and or if else return for repeat while do until switch case default div break enum function constructor new";

    let scanner = Scanner::new(input_string);
    let vec: Vec<Token> = scanner.collect();
    assert_eq!(
        &vec,
        &vec![
            Token::new(TokenType::Var, 0, 0),
            Token::new(TokenType::AndAlias, 0, 4),
            Token::new(TokenType::OrAlias, 0, 8),
            Token::new(TokenType::If, 0, 11),
            Token::new(TokenType::Else, 0, 14),
            Token::new(TokenType::Return, 0, 19),
            Token::new(TokenType::For, 0, 26),
            Token::new(TokenType::Repeat, 0, 30),
            Token::new(TokenType::While, 0, 37),
            Token::new(TokenType::Do, 0, 43),
            Token::new(TokenType::Until, 0, 46),
            Token::new(TokenType::Switch, 0, 52),
            Token::new(TokenType::Case, 0, 59),
            Token::new(TokenType::DefaultCase, 0, 64),
            Token::new(TokenType::Div, 0, 72),
            Token::new(TokenType::Break, 0, 76),
            Token::new(TokenType::Enum, 0, 82),
            Token::new(TokenType::Function, 0, 87),
            Token::new(TokenType::Constructor, 0, 96),
            Token::new(TokenType::New, 0, 108),
        ]
    )
}

#[test]
fn scanner_lex_alias_words() {
    let input_string = "and not or mod";

    let scanner = Scanner::new(input_string);
    let vec: Vec<Token> = scanner.collect();
    assert_eq!(
        &vec,
        &vec![
            Token::new(TokenType::AndAlias, 0, 0),
            Token::new(TokenType::NotAlias, 0, 4),
            Token::new(TokenType::OrAlias, 0, 8),
            Token::new(TokenType::ModAlias, 0, 11),
        ]
    )
}

#[test]
fn scanner_lex_indexers() {
    let input_string = "[ [? [# [| [@ ]";

    let scanner = Scanner::new(input_string);
    let vec: Vec<Token> = scanner.collect();
    assert_eq!(
        &vec,
        &vec![
            Token::new(TokenType::LeftBracket, 0, 0),
            Token::new(TokenType::MapIndexer, 0, 2),
            Token::new(TokenType::GridIndexer, 0, 5),
            Token::new(TokenType::ListIndexer, 0, 8),
            Token::new(TokenType::ArrayIndexer, 0, 11),
            Token::new(TokenType::RightBracket, 0, 14),
        ]
    )
}

#[test]
fn scanner_lex_compiler_directives() {
    let input_string = "#region Region Name Long
#macro macroName 0
#endregion
#macro doing this \\
is bad";

    let scanner = Scanner::new(input_string);
    let vec: Vec<Token> = scanner.collect();
    assert_eq!(
        &vec,
        &vec![
            Token::new(TokenType::RegionBegin("#region Region Name Long"), 0, 0),
            Token::new(TokenType::Newline(0), 0, 24),
            Token::new(TokenType::Macro("#macro macroName 0"), 1, 0),
            Token::new(TokenType::Newline(0), 1, 18),
            Token::new(TokenType::RegionEnd("#endregion"), 2, 0),
            Token::new(TokenType::Newline(0), 2, 10),
            Token::new(TokenType::Macro("#macro doing this \\\nis bad"), 3, 0),
        ]
    )
}

#[test]
fn scanner_lex_comments() {
    let input_string = "// normal comment
var x = a; // end comment
/* one liner */
/* multi
liner comment
*/";
    let scanner = Scanner::new(input_string);
    let vec: Vec<Token> = scanner.collect();
    assert_eq!(
        &vec,
        &vec![
            // line 0
            Token::new(TokenType::Comment("// normal comment"), 0, 0),
            Token::new(TokenType::Newline(0), 0, 17),
            // line 1
            Token::new(TokenType::Var, 1, 0),
            Token::new(TokenType::Identifier("x"), 1, 4),
            Token::new(TokenType::Equal, 1, 6),
            Token::new(TokenType::Identifier("a"), 1, 8),
            Token::new(TokenType::Semicolon, 1, 9),
            Token::new(TokenType::Comment("// end comment"), 1, 11),
            Token::new(TokenType::Newline(0), 1, 25),
            // line 2
            Token::new(TokenType::MultilineComment("/* one liner */"), 2, 0),
            Token::new(TokenType::Newline(0), 2, 15),
            // line 3
            Token::new(TokenType::MultilineComment("/* multi\nliner comment\n*/"), 3, 0),
        ]
    )
}
