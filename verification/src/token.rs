//! Tokens, and what the token sequence of a text is.
//!
//! White space and line comments separate tokens and leave no trace. A word
//! (letters, digits, `_`) is one token; so is a string literal, a character
//! literal, a lifetime, the arrow `->` and the path separator `::`. Every
//! other character is a token by itself.

use vstd::prelude::*;

verus! {

/// The kind of a token.
#[derive(Clone, Copy, Debug, PartialEq, Eq, Structural)]
pub enum TokenKind {
    /// A word that is neither a keyword nor a number.
    Ident,
    Struct,
    Enum,
    Trait,
    Impl,
    Fn,
    Mod,
    Use,
    Pub,
    For,
    Mut,
    Dyn,
    /// The word `self`.
    SelfValue,
    OpenBrace,
    CloseBrace,
    OpenParen,
    CloseParen,
    OpenBracket,
    CloseBracket,
    Less,
    Greater,
    Comma,
    Semi,
    Colon,
    Hash,
    Amp,
    /// The two characters `->`.
    Arrow,
    /// The two characters `::`.
    PathSep,
    /// A single quote and the word after it.
    Lifetime,
    /// A string literal, a character literal, or a word that starts with a digit.
    Literal,
    /// Any other single character.
    Punct,
    /// A quote that opens nothing that is closed: a string literal that the
    /// text ends in, or a single quote that starts neither a character literal
    /// nor a lifetime.
    Unclosed,
}

/// A token: its kind and the characters `start..end` of the text that it covers.
#[derive(Clone, Copy, Debug, PartialEq, Eq, Structural)]
pub struct Token {
    pub kind: TokenKind,
    pub start: usize,
    pub end: usize,
}

/// The characters that separate tokens.
pub open spec fn is_space(c: char) -> bool {
    c == ' ' || c == '\t' || c == '\n' || c == '\r'
}

pub open spec fn is_digit(c: char) -> bool {
    '0' <= c <= '9'
}

/// The characters that words are made of.
pub open spec fn is_word_char(c: char) -> bool {
    ('a' <= c <= 'z') || ('A' <= c <= 'Z') || is_digit(c) || c == '_'
}

/// The first position at or after `i` that holds no word character.
pub open spec fn word_end(text: Seq<char>, i: int) -> int
    decreases text.len() - i,
{
    if 0 <= i < text.len() && is_word_char(text[i]) {
        word_end(text, i + 1)
    } else {
        i
    }
}

/// The first position at or after `i` that holds a line feed, or the end of the text.
pub open spec fn line_end(text: Seq<char>, i: int) -> int
    decreases text.len() - i,
{
    if 0 <= i < text.len() && text[i] != '\n' {
        line_end(text, i + 1)
    } else {
        i
    }
}

/// Where the string literal ends whose contents start at `i`: the position after
/// its closing quote. A backslash takes the character after it along.
pub open spec fn string_end(text: Seq<char>, i: int) -> Option<int>
    decreases text.len() - i,
{
    if !(0 <= i < text.len()) {
        None
    } else if text[i] == '"' {
        Some(i + 1)
    } else if text[i] == '\\' && i + 1 < text.len() {
        string_end(text, i + 2)
    } else {
        string_end(text, i + 1)
    }
}

/// The position after the first single quote at or after `i` on the line of `i`.
pub open spec fn quote_end(text: Seq<char>, i: int) -> Option<int>
    decreases text.len() - i,
{
    if !(0 <= i < text.len()) || text[i] == '\n' {
        None
    } else if text[i] == '\'' {
        Some(i + 1)
    } else {
        quote_end(text, i + 1)
    }
}

/// Where the character literal ends that starts with the single quote at `i`,
/// if one starts there: a quote, one character that is neither a backslash nor
/// a quote, and a quote; or a quote, a backslash, and the rest of the line up
/// to the next quote that does not follow the backslash directly. A quote that
/// starts no literal starts a lifetime where a word follows it, and is a
/// token by itself, of the kind `Unclosed`, where none does.
pub open spec fn char_literal_end(text: Seq<char>, i: int) -> Option<int> {
    if i + 2 < text.len() && text[i + 1] != '\\' && text[i + 1] != '\'' && text[i + 2] == '\'' {
        Some(i + 3)
    } else if i + 1 < text.len() && text[i + 1] == '\\' {
        quote_end(text, i + 3)
    } else {
        None
    }
}

/// The kind of a word.
pub open spec fn word_kind(word: Seq<char>) -> TokenKind {
    if word == "struct"@ {
        TokenKind::Struct
    } else if word == "enum"@ {
        TokenKind::Enum
    } else if word == "trait"@ {
        TokenKind::Trait
    } else if word == "impl"@ {
        TokenKind::Impl
    } else if word == "fn"@ {
        TokenKind::Fn
    } else if word == "mod"@ {
        TokenKind::Mod
    } else if word == "use"@ {
        TokenKind::Use
    } else if word == "pub"@ {
        TokenKind::Pub
    } else if word == "for"@ {
        TokenKind::For
    } else if word == "mut"@ {
        TokenKind::Mut
    } else if word == "dyn"@ {
        TokenKind::Dyn
    } else if word == "self"@ {
        TokenKind::SelfValue
    } else if word.len() > 0 && is_digit(word[0]) {
        TokenKind::Literal
    } else {
        TokenKind::Ident
    }
}

/// The kind of the token that is the single character `c`.
pub open spec fn symbol_kind(c: char) -> TokenKind {
    if c == '{' {
        TokenKind::OpenBrace
    } else if c == '}' {
        TokenKind::CloseBrace
    } else if c == '(' {
        TokenKind::OpenParen
    } else if c == ')' {
        TokenKind::CloseParen
    } else if c == '[' {
        TokenKind::OpenBracket
    } else if c == ']' {
        TokenKind::CloseBracket
    } else if c == '<' {
        TokenKind::Less
    } else if c == '>' {
        TokenKind::Greater
    } else if c == ',' {
        TokenKind::Comma
    } else if c == ';' {
        TokenKind::Semi
    } else if c == ':' {
        TokenKind::Colon
    } else if c == '#' {
        TokenKind::Hash
    } else if c == '&' {
        TokenKind::Amp
    } else {
        TokenKind::Punct
    }
}

/// Whether a line comment starts at `i`.
pub open spec fn comment_starts(text: Seq<char>, i: int) -> bool {
    0 <= i && i + 1 < text.len() && text[i] == '/' && text[i + 1] == '/'
}

/// Whether the two characters at `i` are `first` and `second`.
pub open spec fn pair_at(text: Seq<char>, i: int, first: char, second: char) -> bool {
    0 <= i && i + 1 < text.len() && text[i] == first && text[i + 1] == second
}

/// Where the token ends that starts at `i`, a position that holds neither a
/// space nor the start of a comment.
pub open spec fn token_end(text: Seq<char>, i: int) -> int {
    let c = text[i];
    if is_word_char(c) {
        word_end(text, i + 1)
    } else if c == '"' {
        match string_end(text, i + 1) {
            Some(e) => e,
            None => text.len() as int,
        }
    } else if c == '\'' {
        match char_literal_end(text, i) {
            Some(e) => e,
            None => word_end(text, i + 1),
        }
    } else if pair_at(text, i, '-', '>') || pair_at(text, i, ':', ':') {
        i + 2
    } else {
        i + 1
    }
}

/// The kind of the token that starts at `i`.
pub open spec fn token_kind(text: Seq<char>, i: int) -> TokenKind {
    let c = text[i];
    if is_word_char(c) {
        word_kind(text.subrange(i, word_end(text, i + 1)))
    } else if c == '"' {
        if string_end(text, i + 1) is Some {
            TokenKind::Literal
        } else {
            TokenKind::Unclosed
        }
    } else if c == '\'' {
        if char_literal_end(text, i) is Some {
            TokenKind::Literal
        } else if word_end(text, i + 1) > i + 1 {
            TokenKind::Lifetime
        } else {
            TokenKind::Unclosed
        }
    } else if pair_at(text, i, '-', '>') {
        TokenKind::Arrow
    } else if pair_at(text, i, ':', ':') {
        TokenKind::PathSep
    } else {
        symbol_kind(c)
    }
}

/// The token that starts at `i`.
pub open spec fn token_at(text: Seq<char>, i: int) -> Token {
    Token { kind: token_kind(text, i), start: i as usize, end: token_end(text, i) as usize }
}

/// The tokens of `text` from position `i` on.
pub open spec fn tokens_from(text: Seq<char>, i: int) -> Seq<Token>
    decreases text.len() - i,
{
    if !(0 <= i < text.len()) {
        Seq::empty()
    } else if is_space(text[i]) {
        tokens_from(text, i + 1)
    } else if comment_starts(text, i) {
        proof {
            lemma_line_end_bounds(text, i + 2);
        }
        tokens_from(text, line_end(text, i + 2))
    } else {
        proof {
            lemma_token_end_bounds(text, i);
        }
        seq![token_at(text, i)] + tokens_from(text, token_end(text, i))
    }
}

/// The tokens of `text`.
pub open spec fn tokens_of(text: Seq<char>) -> Seq<Token> {
    tokens_from(text, 0)
}

pub proof fn lemma_word_end_bounds(text: Seq<char>, i: int)
    requires
        0 <= i <= text.len(),
    ensures
        i <= word_end(text, i) <= text.len(),
    decreases text.len() - i,
{
    if i < text.len() && is_word_char(text[i]) {
        lemma_word_end_bounds(text, i + 1);
    }
}

pub proof fn lemma_line_end_bounds(text: Seq<char>, i: int)
    requires
        0 <= i <= text.len(),
    ensures
        i <= line_end(text, i) <= text.len(),
    decreases text.len() - i,
{
    if i < text.len() && text[i] != '\n' {
        lemma_line_end_bounds(text, i + 1);
    }
}

pub proof fn lemma_string_end_bounds(text: Seq<char>, i: int)
    requires
        0 <= i,
    ensures
        string_end(text, i) matches Some(e) ==> i < e <= text.len(),
    decreases text.len() - i,
{
    if i < text.len() && text[i] != '"' {
        if text[i] == '\\' && i + 1 < text.len() {
            lemma_string_end_bounds(text, i + 2);
        } else {
            lemma_string_end_bounds(text, i + 1);
        }
    }
}

pub proof fn lemma_quote_end_bounds(text: Seq<char>, i: int)
    requires
        0 <= i,
    ensures
        quote_end(text, i) matches Some(e) ==> i < e <= text.len(),
    decreases text.len() - i,
{
    if i < text.len() && text[i] != '\n' && text[i] != '\'' {
        lemma_quote_end_bounds(text, i + 1);
    }
}

/// A token is not empty and lies within the text.
pub proof fn lemma_token_end_bounds(text: Seq<char>, i: int)
    requires
        0 <= i < text.len(),
    ensures
        i < token_end(text, i) <= text.len(),
{
    lemma_word_end_bounds(text, i + 1);
    lemma_string_end_bounds(text, i + 1);
    lemma_quote_end_bounds(text, i + 3);
}

} // verus!

verus! {

/// Whether every token is a non-empty stretch of a text of `len` characters
/// and the tokens stand in the order of the text without overlapping.
pub open spec fn tokens_fit(tokens: Seq<Token>, len: nat) -> bool {
    &&& forall|k: int| 0 <= k < tokens.len() ==> (#[trigger] tokens[k]).start < tokens[k].end <= len
    &&& forall|k: int, l: int| 0 <= k < l < tokens.len() ==> (#[trigger] tokens[k]).end <= (#[trigger] tokens[l]).start
}

proof fn lemma_tokens_from_fit(text: Seq<char>, i: int)
    requires
        0 <= i,
        text.len() <= usize::MAX,
    ensures
        tokens_fit(tokens_from(text, i), text.len()),
        forall|k: int| 0 <= k < tokens_from(text, i).len() ==> i <= (#[trigger] tokens_from(text, i)[k]).start,
    decreases text.len() - i,
{
    if i < text.len() {
        if is_space(text[i]) {
            lemma_tokens_from_fit(text, i + 1);
        } else if comment_starts(text, i) {
            lemma_line_end_bounds(text, i + 2);
            lemma_tokens_from_fit(text, line_end(text, i + 2));
        } else {
            lemma_token_end_bounds(text, i);
            let first = token_at(text, i);
            let rest = tokens_from(text, token_end(text, i));
            lemma_tokens_from_fit(text, token_end(text, i));
            let all = tokens_from(text, i);
            assert(all == seq![first] + rest);
            assert forall|k: int| 0 <= k < all.len() implies (#[trigger] all[k]).start < all[k].end
                <= text.len() && i <= all[k].start by {
                if k > 0 {
                    assert(all[k] == rest[k - 1]);
                }
            }
            assert forall|k: int, l: int| 0 <= k < l < all.len() implies (#[trigger] all[k]).end <= (
            #[trigger] all[l]).start by {
                assert(all[l] == rest[l - 1]);
                if k > 0 {
                    assert(all[k] == rest[k - 1]);
                }
            }
        }
    }
}

/// The tokens of a text that a machine can hold fit the text.
pub proof fn lemma_tokens_fit(text: Seq<char>)
    requires
        text.len() <= usize::MAX,
    ensures
        tokens_fit(tokens_of(text), text.len()),
{
    lemma_tokens_from_fit(text, 0);
}

} // verus!
