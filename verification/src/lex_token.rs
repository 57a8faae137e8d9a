use vstd::prelude::*;

verus! {

/// The kind of a lexed token. Tokens that carry source text hold a slice of
/// the input they were lexed from.
#[derive(Debug, PartialEq, Copy, Clone)]
pub enum TokenType<'a> {
    LeftParen,
    RightParen,
    LeftBrace,
    RightBrace,
    LeftBracket,
    RightBracket,
    Comma,
    Dot,
    Colon,
    Semicolon,
    Slash,
    Backslash,
    Star,
    Mod,
    Hashtag,
    Then,
    PlusEquals,
    MinusEquals,
    StarEquals,
    SlashEquals,
    BitXorEquals,
    BitOrEquals,
    BitAndEquals,
    ModEquals,
    ListIndexer,
    MapIndexer,
    GridIndexer,
    ArrayIndexer,
    Minus,
    Plus,
    Incrementer,
    Decrementer,
    Bang,
    Hook,
    Tilde,
    LessThanGreaterThan,
    LogicalAnd,
    LogicalOr,
    LogicalXor,
    BitAnd,
    BitOr,
    BitXor,
    BitLeft,
    BitRight,
    BangEqual,
    Equal,
    EqualEqual,
    Greater,
    GreaterEqual,
    Less,
    LessEqual,
    Define,
    Var,
    GlobalVar,
    If,
    Else,
    Return,
    For,
    Function,
    Constructor,
    New,
    Delete,
    Repeat,
    While,
    With,
    Do,
    Until,
    Switch,
    Case,
    DefaultCase,
    Break,
    Exit,
    Enum,
    AndAlias,
    OrAlias,
    XorAlias,
    NotAlias,
    ModAlias,
    Div,
    Newline(usize),
    Macro(&'a str),
    RegionBegin(&'a str),
    RegionEnd(&'a str),
    Identifier(&'a str),
    String(&'a str),
    Number(&'a str),
    NumberStartDot(&'a str),
    NumberEndDot(&'a str),
    Comment(&'a str),
    MultilineComment(&'a str),
    UnidentifiedInput(&'a str),
}

/// The variants of `TokenType` that carry a slice of the source.
pub enum TextKind {
    Macro,
    RegionBegin,
    RegionEnd,
    Identifier,
    String,
    Number,
    NumberStartDot,
    NumberEndDot,
    Comment,
    MultilineComment,
    UnidentifiedInput,
}

impl<'a> TokenType<'a> {
    /// A number for each variant; two tokens have the same number exactly
    /// when they are the same variant.
    pub open spec fn tag(self) -> int {
        match self {
            TokenType::LeftParen => 0,
            TokenType::RightParen => 1,
            TokenType::LeftBrace => 2,
            TokenType::RightBrace => 3,
            TokenType::LeftBracket => 4,
            TokenType::RightBracket => 5,
            TokenType::Comma => 6,
            TokenType::Dot => 7,
            TokenType::Colon => 8,
            TokenType::Semicolon => 9,
            TokenType::Slash => 10,
            TokenType::Backslash => 11,
            TokenType::Star => 12,
            TokenType::Mod => 13,
            TokenType::Hashtag => 14,
            TokenType::Then => 15,
            TokenType::PlusEquals => 16,
            TokenType::MinusEquals => 17,
            TokenType::StarEquals => 18,
            TokenType::SlashEquals => 19,
            TokenType::BitXorEquals => 20,
            TokenType::BitOrEquals => 21,
            TokenType::BitAndEquals => 22,
            TokenType::ModEquals => 23,
            TokenType::ListIndexer => 24,
            TokenType::MapIndexer => 25,
            TokenType::GridIndexer => 26,
            TokenType::ArrayIndexer => 27,
            TokenType::Minus => 28,
            TokenType::Plus => 29,
            TokenType::Incrementer => 30,
            TokenType::Decrementer => 31,
            TokenType::Bang => 32,
            TokenType::Hook => 33,
            TokenType::Tilde => 34,
            TokenType::LessThanGreaterThan => 35,
            TokenType::LogicalAnd => 36,
            TokenType::LogicalOr => 37,
            TokenType::LogicalXor => 38,
            TokenType::BitAnd => 39,
            TokenType::BitOr => 40,
            TokenType::BitXor => 41,
            TokenType::BitLeft => 42,
            TokenType::BitRight => 43,
            TokenType::BangEqual => 44,
            TokenType::Equal => 45,
            TokenType::EqualEqual => 46,
            TokenType::Greater => 47,
            TokenType::GreaterEqual => 48,
            TokenType::Less => 49,
            TokenType::LessEqual => 50,
            TokenType::Define => 51,
            TokenType::Var => 52,
            TokenType::GlobalVar => 53,
            TokenType::If => 54,
            TokenType::Else => 55,
            TokenType::Return => 56,
            TokenType::For => 57,
            TokenType::Function => 58,
            TokenType::Constructor => 59,
            TokenType::New => 60,
            TokenType::Delete => 61,
            TokenType::Repeat => 62,
            TokenType::While => 63,
            TokenType::With => 64,
            TokenType::Do => 65,
            TokenType::Until => 66,
            TokenType::Switch => 67,
            TokenType::Case => 68,
            TokenType::DefaultCase => 69,
            TokenType::Break => 70,
            TokenType::Exit => 71,
            TokenType::Enum => 72,
            TokenType::AndAlias => 73,
            TokenType::OrAlias => 74,
            TokenType::XorAlias => 75,
            TokenType::NotAlias => 76,
            TokenType::ModAlias => 77,
            TokenType::Div => 78,
            TokenType::Newline(_) => 79,
            TokenType::Macro(_) => 80,
            TokenType::RegionBegin(_) => 81,
            TokenType::RegionEnd(_) => 82,
            TokenType::Identifier(_) => 83,
            TokenType::String(_) => 84,
            TokenType::Number(_) => 85,
            TokenType::NumberStartDot(_) => 86,
            TokenType::NumberEndDot(_) => 87,
            TokenType::Comment(_) => 88,
            TokenType::MultilineComment(_) => 89,
            TokenType::UnidentifiedInput(_) => 90,
        }
    }

    /// The source text carried by the token, empty for the other variants.
    pub open spec fn payload(self) -> Seq<char> {
        match self {
            TokenType::Macro(s) => s@,
            TokenType::RegionBegin(s) => s@,
            TokenType::RegionEnd(s) => s@,
            TokenType::Identifier(s) => s@,
            TokenType::String(s) => s@,
            TokenType::Number(s) => s@,
            TokenType::NumberStartDot(s) => s@,
            TokenType::NumberEndDot(s) => s@,
            TokenType::Comment(s) => s@,
            TokenType::MultilineComment(s) => s@,
            TokenType::UnidentifiedInput(s) => s@,
            _ => Seq::empty(),
        }
    }

    /// The token is the given text-carrying variant and holds `text`.
    pub open spec fn has_text(self, kind: TextKind, text: Seq<char>) -> bool {
        &&& self.payload() == text
        &&& match kind {
            TextKind::Macro => self is Macro,
            TextKind::RegionBegin => self is RegionBegin,
            TextKind::RegionEnd => self is RegionEnd,
            TextKind::Identifier => self is Identifier,
            TextKind::String => self is String,
            TextKind::Number => self is Number,
            TextKind::NumberStartDot => self is NumberStartDot,
            TextKind::NumberEndDot => self is NumberEndDot,
            TextKind::Comment => self is Comment,
            TextKind::MultilineComment => self is MultilineComment,
            TextKind::UnidentifiedInput => self is UnidentifiedInput,
        }
    }

    /// The variants that carry neither text nor a number.
    pub open spec fn is_plain(self) -> bool {
        self.tag() < 79
    }

    /// How the token is spelled when printed.
    pub open spec fn spec_name(self) -> Seq<char> {
        match self {
            TokenType::LeftParen => "("@,
            TokenType::RightParen => ")"@,
            TokenType::LeftBrace => "{"@,
            TokenType::RightBrace => "}"@,
            TokenType::LeftBracket => "["@,
            TokenType::RightBracket => "]"@,
            TokenType::Comma => ","@,
            TokenType::Dot => "."@,
            TokenType::Colon => ":"@,
            TokenType::Semicolon => ";"@,
            TokenType::Slash => "/"@,
            TokenType::Backslash => "\\"@,
            TokenType::Star => "*"@,
            TokenType::Mod => "%"@,
            TokenType::Hashtag => "#"@,
            TokenType::Then => "then"@,
            TokenType::PlusEquals => "+="@,
            TokenType::MinusEquals => "-="@,
            TokenType::StarEquals => "*="@,
            TokenType::SlashEquals => "/="@,
            TokenType::BitXorEquals => "^="@,
            TokenType::BitOrEquals => "|="@,
            TokenType::BitAndEquals => "&="@,
            TokenType::ModEquals => "%="@,
            TokenType::ListIndexer => "[|"@,
            TokenType::MapIndexer => "[?"@,
            TokenType::GridIndexer => "[#"@,
            TokenType::ArrayIndexer => "[@"@,
            TokenType::Minus => "-"@,
            TokenType::Plus => "+"@,
            TokenType::Incrementer => "++"@,
            TokenType::Decrementer => "--"@,
            TokenType::Bang => "!"@,
            TokenType::Hook => "?"@,
            TokenType::Tilde => "~"@,
            TokenType::LessThanGreaterThan => "<>"@,
            TokenType::LogicalAnd => "&&"@,
            TokenType::LogicalOr => "||"@,
            TokenType::LogicalXor => "^^"@,
            TokenType::BitAnd => "&"@,
            TokenType::BitOr => "|"@,
            TokenType::BitXor => "^"@,
            TokenType::BitLeft => "<<"@,
            TokenType::BitRight => ">>"@,
            TokenType::BangEqual => "!="@,
            TokenType::Equal => "="@,
            TokenType::EqualEqual => "=="@,
            TokenType::Greater => ">"@,
            TokenType::GreaterEqual => ">="@,
            TokenType::Less => "<"@,
            TokenType::LessEqual => "<="@,
            TokenType::Define => "#define"@,
            TokenType::Var => "var"@,
            TokenType::GlobalVar => "globalvar"@,
            TokenType::If => "if"@,
            TokenType::Else => "else"@,
            TokenType::Return => "return"@,
            TokenType::For => "for"@,
            TokenType::Function => "function"@,
            TokenType::Constructor => "constructor"@,
            TokenType::New => "new"@,
            TokenType::Delete => "delete"@,
            TokenType::Repeat => "repeat"@,
            TokenType::While => "while"@,
            TokenType::With => "with"@,
            TokenType::Do => "do"@,
            TokenType::Until => "until"@,
            TokenType::Switch => "switch"@,
            TokenType::Case => "case"@,
            TokenType::DefaultCase => "default"@,
            TokenType::Break => "break"@,
            TokenType::Exit => "exit"@,
            TokenType::Enum => "enum"@,
            TokenType::AndAlias => "and"@,
            TokenType::OrAlias => "or"@,
            TokenType::XorAlias => "xor"@,
            TokenType::NotAlias => "not"@,
            TokenType::ModAlias => "mod"@,
            TokenType::Div => "div"@,
            TokenType::Newline(_) => "\n"@,
            _ => self.payload(),
        }
    }

    /// Computes the variant number of `spec tag`.
    pub fn kind_number(&self) -> (r: u8)
        ensures
            r as int == self.tag(),
    {
        match self {
            TokenType::LeftParen => 0,
            TokenType::RightParen => 1,
            TokenType::LeftBrace => 2,
            TokenType::RightBrace => 3,
            TokenType::LeftBracket => 4,
            TokenType::RightBracket => 5,
            TokenType::Comma => 6,
            TokenType::Dot => 7,
            TokenType::Colon => 8,
            TokenType::Semicolon => 9,
            TokenType::Slash => 10,
            TokenType::Backslash => 11,
            TokenType::Star => 12,
            TokenType::Mod => 13,
            TokenType::Hashtag => 14,
            TokenType::Then => 15,
            TokenType::PlusEquals => 16,
            TokenType::MinusEquals => 17,
            TokenType::StarEquals => 18,
            TokenType::SlashEquals => 19,
            TokenType::BitXorEquals => 20,
            TokenType::BitOrEquals => 21,
            TokenType::BitAndEquals => 22,
            TokenType::ModEquals => 23,
            TokenType::ListIndexer => 24,
            TokenType::MapIndexer => 25,
            TokenType::GridIndexer => 26,
            TokenType::ArrayIndexer => 27,
            TokenType::Minus => 28,
            TokenType::Plus => 29,
            TokenType::Incrementer => 30,
            TokenType::Decrementer => 31,
            TokenType::Bang => 32,
            TokenType::Hook => 33,
            TokenType::Tilde => 34,
            TokenType::LessThanGreaterThan => 35,
            TokenType::LogicalAnd => 36,
            TokenType::LogicalOr => 37,
            TokenType::LogicalXor => 38,
            TokenType::BitAnd => 39,
            TokenType::BitOr => 40,
            TokenType::BitXor => 41,
            TokenType::BitLeft => 42,
            TokenType::BitRight => 43,
            TokenType::BangEqual => 44,
            TokenType::Equal => 45,
            TokenType::EqualEqual => 46,
            TokenType::Greater => 47,
            TokenType::GreaterEqual => 48,
            TokenType::Less => 49,
            TokenType::LessEqual => 50,
            TokenType::Define => 51,
            TokenType::Var => 52,
            TokenType::GlobalVar => 53,
            TokenType::If => 54,
            TokenType::Else => 55,
            TokenType::Return => 56,
            TokenType::For => 57,
            TokenType::Function => 58,
            TokenType::Constructor => 59,
            TokenType::New => 60,
            TokenType::Delete => 61,
            TokenType::Repeat => 62,
            TokenType::While => 63,
            TokenType::With => 64,
            TokenType::Do => 65,
            TokenType::Until => 66,
            TokenType::Switch => 67,
            TokenType::Case => 68,
            TokenType::DefaultCase => 69,
            TokenType::Break => 70,
            TokenType::Exit => 71,
            TokenType::Enum => 72,
            TokenType::AndAlias => 73,
            TokenType::OrAlias => 74,
            TokenType::XorAlias => 75,
            TokenType::NotAlias => 76,
            TokenType::ModAlias => 77,
            TokenType::Div => 78,
            TokenType::Newline(_) => 79,
            TokenType::Macro(_) => 80,
            TokenType::RegionBegin(_) => 81,
            TokenType::RegionEnd(_) => 82,
            TokenType::Identifier(_) => 83,
            TokenType::String(_) => 84,
            TokenType::Number(_) => 85,
            TokenType::NumberStartDot(_) => 86,
            TokenType::NumberEndDot(_) => 87,
            TokenType::Comment(_) => 88,
            TokenType::MultilineComment(_) => 89,
            TokenType::UnidentifiedInput(_) => 90,
        }
    }

    /// Whether two tokens are the same variant (whatever text they carry).
    pub fn same_kind(&self, other: &TokenType<'a>) -> (r: bool)
        ensures
            r == (self.tag() == other.tag()),
    {
        self.kind_number() == other.kind_number()
    }

    pub fn is_ident(&self) -> (r: bool)
        ensures
            r == (*self is Identifier),
    {
        if let TokenType::Identifier(_) = self {
            return true;
        };
        false
    }
}

/// Two plain variants with the same number are the same value.
pub proof fn lemma_plain_tag_determines(a: TokenType, b: TokenType)
    requires
        a.is_plain(),
        a.tag() == b.tag(),
    ensures
        a == b,
{
}

/// A token and where it starts in the source (line and column, from zero).
#[derive(Debug, PartialEq, Copy, Clone)]
pub struct Token<'a> {
    pub token_type: TokenType<'a>,
    pub line_number: u32,
    pub column_number: u32,
}

impl<'a> Token<'a> {
    pub fn new(token_type: TokenType<'a>, line_number: u32, column_number: u32) -> (r: Token<'a>)
        ensures
            r.token_type == token_type,
            r.line_number == line_number,
            r.column_number == column_number,
    {
        Token { token_type, line_number, column_number }
    }

    pub fn token_type(&self) -> (r: &TokenType<'a>)
        ensures
            *r == self.token_type,
    {
        &self.token_type
    }

    pub fn line_number(&self) -> (r: &u32)
        ensures
            *r == self.line_number,
    {
        &self.line_number
    }

    /// The spelling of the token in the source.
    pub fn print_name(&self) -> (r: &'a str)
        ensures
            r@ == self.token_type.spec_name(),
    {
        proof { reveal_token_names(); }
        match self.token_type {
            TokenType::LeftParen => "(",
            TokenType::RightParen => ")",
            TokenType::LeftBrace => "{",
            TokenType::RightBrace => "}",
            TokenType::LeftBracket => "[",
            TokenType::RightBracket => "]",
            TokenType::Comma => ",",
            TokenType::Dot => ".",
            TokenType::Colon => ":",
            TokenType::Semicolon => ";",
            TokenType::Slash => "/",
            TokenType::Backslash => "\\",
            TokenType::Star => "*",
            TokenType::Mod => "%",
            TokenType::Hashtag => "#",
            TokenType::Then => "then",
            TokenType::PlusEquals => "+=",
            TokenType::MinusEquals => "-=",
            TokenType::StarEquals => "*=",
            TokenType::SlashEquals => "/=",
            TokenType::BitXorEquals => "^=",
            TokenType::BitOrEquals => "|=",
            TokenType::BitAndEquals => "&=",
            TokenType::ModEquals => "%=",
            TokenType::ListIndexer => "[|",
            TokenType::MapIndexer => "[?",
            TokenType::GridIndexer => "[#",
            TokenType::ArrayIndexer => "[@",
            TokenType::Minus => "-",
            TokenType::Plus => "+",
            TokenType::Incrementer => "++",
            TokenType::Decrementer => "--",
            TokenType::Bang => "!",
            TokenType::Hook => "?",
            TokenType::Tilde => "~",
            TokenType::LessThanGreaterThan => "<>",
            TokenType::LogicalAnd => "&&",
            TokenType::LogicalOr => "||",
            TokenType::LogicalXor => "^^",
            TokenType::BitAnd => "&",
            TokenType::BitOr => "|",
            TokenType::BitXor => "^",
            TokenType::BitLeft => "<<",
            TokenType::BitRight => ">>",
            TokenType::BangEqual => "!=",
            TokenType::Equal => "=",
            TokenType::EqualEqual => "==",
            TokenType::Greater => ">",
            TokenType::GreaterEqual => ">=",
            TokenType::Less => "<",
            TokenType::LessEqual => "<=",
            TokenType::Define => "#define",
            TokenType::Var => "var",
            TokenType::GlobalVar => "globalvar",
            TokenType::If => "if",
            TokenType::Else => "else",
            TokenType::Return => "return",
            TokenType::For => "for",
            TokenType::Function => "function",
            TokenType::Constructor => "constructor",
            TokenType::New => "new",
            TokenType::Delete => "delete",
            TokenType::Repeat => "repeat",
            TokenType::While => "while",
            TokenType::With => "with",
            TokenType::Do => "do",
            TokenType::Until => "until",
            TokenType::Switch => "switch",
            TokenType::Case => "case",
            TokenType::DefaultCase => "default",
            TokenType::Break => "break",
            TokenType::Exit => "exit",
            TokenType::Enum => "enum",
            TokenType::AndAlias => "and",
            TokenType::OrAlias => "or",
            TokenType::XorAlias => "xor",
            TokenType::NotAlias => "not",
            TokenType::ModAlias => "mod",
            TokenType::Div => "div",
            TokenType::Newline(_) => "\n",
            TokenType::Macro(literal)
            | TokenType::RegionBegin(literal)
            | TokenType::RegionEnd(literal)
            | TokenType::Identifier(literal)
            | TokenType::String(literal)
            | TokenType::Number(literal)
            | TokenType::NumberStartDot(literal)
            | TokenType::NumberEndDot(literal)
            | TokenType::Comment(literal)
            | TokenType::MultilineComment(literal)
            | TokenType::UnidentifiedInput(literal) => literal,
        }
    }
}

/// The spelling of a variant that carries neither text nor a number is never
/// a lone newline.
pub proof fn lemma_plain_name_not_newline(tt: TokenType)
    requires
        tt.is_plain(),
    ensures
        tt.spec_name() != seq!['\n'],
{
    reveal_token_names();
    if tt.spec_name().len() == 1 {
        assert(tt.spec_name()[0] != '\n');
    }
}

/// Makes the character content of every fixed token spelling known.
pub proof fn reveal_token_names()
    ensures
        "("@ == seq!['('],
        ")"@ == seq![')'],
        "{"@ == seq!['{'],
        "}"@ == seq!['}'],
        "["@ == seq!['['],
        "]"@ == seq![']'],
        ","@ == seq![','],
        "."@ == seq!['.'],
        ":"@ == seq![':'],
        ";"@ == seq![';'],
        "/"@ == seq!['/'],
        "\\"@ == seq!['\\'],
        "*"@ == seq!['*'],
        "%"@ == seq!['%'],
        "#"@ == seq!['#'],
        "then"@ == seq!['t', 'h', 'e', 'n'],
        "+="@ == seq!['+', '='],
        "-="@ == seq!['-', '='],
        "*="@ == seq!['*', '='],
        "/="@ == seq!['/', '='],
        "^="@ == seq!['^', '='],
        "|="@ == seq!['|', '='],
        "&="@ == seq!['&', '='],
        "%="@ == seq!['%', '='],
        "[|"@ == seq!['[', '|'],
        "[?"@ == seq!['[', '?'],
        "[#"@ == seq!['[', '#'],
        "[@"@ == seq!['[', '@'],
        "-"@ == seq!['-'],
        "+"@ == seq!['+'],
        "++"@ == seq!['+', '+'],
        "--"@ == seq!['-', '-'],
        "!"@ == seq!['!'],
        "?"@ == seq!['?'],
        "~"@ == seq!['~'],
        "<>"@ == seq!['<', '>'],
        "&&"@ == seq!['&', '&'],
        "||"@ == seq!['|', '|'],
        "^^"@ == seq!['^', '^'],
        "&"@ == seq!['&'],
        "|"@ == seq!['|'],
        "^"@ == seq!['^'],
        "<<"@ == seq!['<', '<'],
        ">>"@ == seq!['>', '>'],
        "!="@ == seq!['!', '='],
        "="@ == seq!['='],
        "=="@ == seq!['=', '='],
        ">"@ == seq!['>'],
        ">="@ == seq!['>', '='],
        "<"@ == seq!['<'],
        "<="@ == seq!['<', '='],
        "#define"@ == seq!['#', 'd', 'e', 'f', 'i', 'n', 'e'],
        "var"@ == seq!['v', 'a', 'r'],
        "globalvar"@ == seq!['g', 'l', 'o', 'b', 'a', 'l', 'v', 'a', 'r'],
        "if"@ == seq!['i', 'f'],
        "else"@ == seq!['e', 'l', 's', 'e'],
        "return"@ == seq!['r', 'e', 't', 'u', 'r', 'n'],
        "for"@ == seq!['f', 'o', 'r'],
        "function"@ == seq!['f', 'u', 'n', 'c', 't', 'i', 'o', 'n'],
        "constructor"@ == seq!['c', 'o', 'n', 's', 't', 'r', 'u', 'c', 't', 'o', 'r'],
        "new"@ == seq!['n', 'e', 'w'],
        "delete"@ == seq!['d', 'e', 'l', 'e', 't', 'e'],
        "repeat"@ == seq!['r', 'e', 'p', 'e', 'a', 't'],
        "while"@ == seq!['w', 'h', 'i', 'l', 'e'],
        "with"@ == seq!['w', 'i', 't', 'h'],
        "do"@ == seq!['d', 'o'],
        "until"@ == seq!['u', 'n', 't', 'i', 'l'],
        "switch"@ == seq!['s', 'w', 'i', 't', 'c', 'h'],
        "case"@ == seq!['c', 'a', 's', 'e'],
        "default"@ == seq!['d', 'e', 'f', 'a', 'u', 'l', 't'],
        "break"@ == seq!['b', 'r', 'e', 'a', 'k'],
        "exit"@ == seq!['e', 'x', 'i', 't'],
        "enum"@ == seq!['e', 'n', 'u', 'm'],
        "and"@ == seq!['a', 'n', 'd'],
        "or"@ == seq!['o', 'r'],
        "xor"@ == seq!['x', 'o', 'r'],
        "not"@ == seq!['n', 'o', 't'],
        "mod"@ == seq!['m', 'o', 'd'],
        "div"@ == seq!['d', 'i', 'v'],
        "\n"@ == seq!['\n'],
{
    reveal_strlit("(");
    reveal_strlit(")");
    reveal_strlit("{");
    reveal_strlit("}");
    reveal_strlit("[");
    reveal_strlit("]");
    reveal_strlit(",");
    reveal_strlit(".");
    reveal_strlit(":");
    reveal_strlit(";");
    reveal_strlit("/");
    reveal_strlit("\\");
    reveal_strlit("*");
    reveal_strlit("%");
    reveal_strlit("#");
    reveal_strlit("then");
    reveal_strlit("+=");
    reveal_strlit("-=");
    reveal_strlit("*=");
    reveal_strlit("/=");
    reveal_strlit("^=");
    reveal_strlit("|=");
    reveal_strlit("&=");
    reveal_strlit("%=");
    reveal_strlit("[|");
    reveal_strlit("[?");
    reveal_strlit("[#");
    reveal_strlit("[@");
    reveal_strlit("-");
    reveal_strlit("+");
    reveal_strlit("++");
    reveal_strlit("--");
    reveal_strlit("!");
    reveal_strlit("?");
    reveal_strlit("~");
    reveal_strlit("<>");
    reveal_strlit("&&");
    reveal_strlit("||");
    reveal_strlit("^^");
    reveal_strlit("&");
    reveal_strlit("|");
    reveal_strlit("^");
    reveal_strlit("<<");
    reveal_strlit(">>");
    reveal_strlit("!=");
    reveal_strlit("=");
    reveal_strlit("==");
    reveal_strlit(">");
    reveal_strlit(">=");
    reveal_strlit("<");
    reveal_strlit("<=");
    reveal_strlit("#define");
    reveal_strlit("var");
    reveal_strlit("globalvar");
    reveal_strlit("if");
    reveal_strlit("else");
    reveal_strlit("return");
    reveal_strlit("for");
    reveal_strlit("function");
    reveal_strlit("constructor");
    reveal_strlit("new");
    reveal_strlit("delete");
    reveal_strlit("repeat");
    reveal_strlit("while");
    reveal_strlit("with");
    reveal_strlit("do");
    reveal_strlit("until");
    reveal_strlit("switch");
    reveal_strlit("case");
    reveal_strlit("default");
    reveal_strlit("break");
    reveal_strlit("exit");
    reveal_strlit("enum");
    reveal_strlit("and");
    reveal_strlit("or");
    reveal_strlit("xor");
    reveal_strlit("not");
    reveal_strlit("mod");
    reveal_strlit("div");
    reveal_strlit("\n");
}

} // verus!
