use crate::lex_token::TokenType;
use fnv::{FnvHashMap, FnvHasher};
use std::hash::BuildHasherDefault;
use vstd::prelude::*;

verus! {

/// The hasher of the fnv crate.
#[verifier::external_type_specification]
#[verifier::external_body]
pub struct ExFnvHasher(FnvHasher);

/// std's builder of hashers that start from their `Default`.
#[verifier::external_type_specification]
#[verifier::external_body]
#[verifier::reject_recursive_types(H)]
pub struct ExBuildHasherDefault<H>(BuildHasherDefault<H>);

/// What an FNV hash map from words to numbers holds, each word taken by its characters.
pub uninterp spec fn fnv_map_contents(map: FnvHashMap<&'static str, u8>) -> Map<Seq<char>, u8>;

/// The reserved words, held in an FNV hash map from word to its number in the table.
pub struct KeywordTable {
    pub(crate) map: FnvHashMap<&'static str, u8>,
}

pub open spec fn no_keywords() -> Map<Seq<char>, u8> {
    Map::empty()
}

impl KeywordTable {
    /// Calls `HashMap::with_capacity_and_hasher` with the FNV hasher, as
    /// `FnvHashMap::with_capacity_and_hasher`: the new map is empty.
    #[verifier::external_body]
    fn with_capacity(n: usize) -> (table: KeywordTable)
        ensures
            fnv_map_contents(table.map) == no_keywords(),
    {
        KeywordTable { map: FnvHashMap::with_capacity_and_hasher(n, Default::default()) }
    }

    /// Calls `HashMap::insert` on the FNV map: afterwards `word` maps to `code`
    /// and every other word keeps its entry (string keys compare by content).
    #[verifier::external_body]
    fn insert(&mut self, word: &'static str, code: u8)
        ensures
            fnv_map_contents(final(self).map) == fnv_map_contents(old(self).map).insert(word@, code),
    {
        self.map.insert(word, code);
    }

    /// Calls `HashMap::get` on the FNV map: the entry of `word`, if it has one.
    #[verifier::external_body]
    pub(crate) fn get(&self, word: &str) -> (r: Option<u8>)
        ensures
            r == fnv_map_contents(self.map).get(word@),
    {
        self.map.get(word).copied()
    }
}

/// The reserved words of the language, each with its number in the keyword table.
pub open spec fn keyword_map() -> Map<Seq<char>, u8> {
    map![
        "var"@ => 0u8,
        "and"@ => 1u8,
        "or"@ => 2u8,
        "not"@ => 3u8,
        "if"@ => 4u8,
        "else"@ => 5u8,
        "function"@ => 6u8,
        "constructor"@ => 7u8,
        "new"@ => 8u8,
        "delete"@ => 9u8,
        "return"@ => 10u8,
        "for"@ => 11u8,
        "repeat"@ => 12u8,
        "while"@ => 13u8,
        "do"@ => 14u8,
        "until"@ => 15u8,
        "switch"@ => 16u8,
        "case"@ => 17u8,
        "default"@ => 18u8,
        "mod"@ => 19u8,
        "div"@ => 20u8,
        "break"@ => 21u8,
        "exit"@ => 22u8,
        "enum"@ => 23u8,
        "with"@ => 24u8,
        "then"@ => 25u8,
        "globalvar"@ => 26u8,
    ]
}

/// The token of a reserved word, by its number in the keyword table.
pub open spec fn keyword_type<'a>(code: u8) -> TokenType<'a> {
    match code {
        0u8 => TokenType::Var,
        1u8 => TokenType::AndAlias,
        2u8 => TokenType::OrAlias,
        3u8 => TokenType::NotAlias,
        4u8 => TokenType::If,
        5u8 => TokenType::Else,
        6u8 => TokenType::Function,
        7u8 => TokenType::Constructor,
        8u8 => TokenType::New,
        9u8 => TokenType::Delete,
        10u8 => TokenType::Return,
        11u8 => TokenType::For,
        12u8 => TokenType::Repeat,
        13u8 => TokenType::While,
        14u8 => TokenType::Do,
        15u8 => TokenType::Until,
        16u8 => TokenType::Switch,
        17u8 => TokenType::Case,
        18u8 => TokenType::DefaultCase,
        19u8 => TokenType::ModAlias,
        20u8 => TokenType::Div,
        21u8 => TokenType::Break,
        22u8 => TokenType::Exit,
        23u8 => TokenType::Enum,
        24u8 => TokenType::With,
        25u8 => TokenType::Then,
        _ => TokenType::GlobalVar,
    }
}

pub(crate) fn keyword_token<'a>(code: u8) -> (r: TokenType<'a>)
    ensures
        r == keyword_type::<'a>(code),
{
    match code {
        0 => TokenType::Var,
        1 => TokenType::AndAlias,
        2 => TokenType::OrAlias,
        3 => TokenType::NotAlias,
        4 => TokenType::If,
        5 => TokenType::Else,
        6 => TokenType::Function,
        7 => TokenType::Constructor,
        8 => TokenType::New,
        9 => TokenType::Delete,
        10 => TokenType::Return,
        11 => TokenType::For,
        12 => TokenType::Repeat,
        13 => TokenType::While,
        14 => TokenType::Do,
        15 => TokenType::Until,
        16 => TokenType::Switch,
        17 => TokenType::Case,
        18 => TokenType::DefaultCase,
        19 => TokenType::ModAlias,
        20 => TokenType::Div,
        21 => TokenType::Break,
        22 => TokenType::Exit,
        23 => TokenType::Enum,
        24 => TokenType::With,
        25 => TokenType::Then,
        _ => TokenType::GlobalVar,
    }
}

/// Builds the table of reserved words.
pub(crate) fn build_keyword_table() -> (table: KeywordTable)
    ensures
        fnv_map_contents(table.map) == keyword_map(),
{
    let mut table = KeywordTable::with_capacity(25);
    table.insert("var", 0);
    table.insert("and", 1);
    table.insert("or", 2);
    table.insert("not", 3);
    table.insert("if", 4);
    table.insert("else", 5);
    table.insert("function", 6);
    table.insert("constructor", 7);
    table.insert("new", 8);
    table.insert("delete", 9);
    table.insert("return", 10);
    table.insert("for", 11);
    table.insert("repeat", 12);
    table.insert("while", 13);
    table.insert("do", 14);
    table.insert("until", 15);
    table.insert("switch", 16);
    table.insert("case", 17);
    table.insert("default", 18);
    table.insert("mod", 19);
    table.insert("div", 20);
    table.insert("break", 21);
    table.insert("exit", 22);
    table.insert("enum", 23);
    table.insert("with", 24);
    table.insert("then", 25);
    table.insert("globalvar", 26);
    table
}

/// A reserved word's token is printed as the word itself: the scanner's table
/// of reserved words and the printer's spellings agree.
pub proof fn lemma_keywords_print_as_spelled(word: Seq<char>)
    requires
        keyword_map().contains_key(word),
    ensures
        keyword_type(keyword_map()[word]).spec_name() == word,
{
}

} // verus!
