//! The lexer: one pass over the characters of a text that yields its tokens.

use crate::token::{
    char_literal_end, is_digit, is_space, is_word_char, lemma_token_end_bounds, line_end, quote_end,
    string_end, symbol_kind, token_at, token_end, tokens_from, tokens_of, word_end, word_kind,
    Token, TokenKind,
};
use vstd::prelude::*;
use vstd::string::*;

verus! {

/// The characters of `text`, one by one.
pub fn chars_of(text: &str) -> (chars: Vec<char>)
    ensures
        chars@ == text@,
{
    let mut chars: Vec<char> = Vec::new();
    for c in it: text.chars()
        invariant
            it.seq() == text@,
            chars@ == it.seq().take(it.index()),
    {
        chars.push(c);
        assert(it.seq().take(it.index() + 1) =~= it.seq().take(it.index()).push(c));
    }
    assert(text@.take(text@.len() as int) =~= text@);
    chars
}

fn space_char(c: char) -> (yes: bool)
    ensures
        yes == is_space(c),
{
    c == ' ' || c == '\t' || c == '\n' || c == '\r'
}

fn digit_char(c: char) -> (yes: bool)
    ensures
        yes == is_digit(c),
{
    '0' <= c && c <= '9'
}

fn word_char(c: char) -> (yes: bool)
    ensures
        yes == is_word_char(c),
{
    ('a' <= c && c <= 'z') || ('A' <= c && c <= 'Z') || digit_char(c) || c == '_'
}

/// Whether the characters `start..end` of `chars` spell `word`.
pub fn spells(chars: &[char], start: usize, end: usize, word: &str) -> (yes: bool)
    requires
        start <= end <= chars@.len(),
    ensures
        yes == (chars@.subrange(start as int, end as int) == word@),
{
    let len = word.unicode_len();
    if end - start != len {
        return false;
    }
    let mut k: usize = 0;
    while k < len
        invariant
            start <= end <= chars@.len(),
            end - start == len == word@.len(),
            k <= len,
            forall|j: int| 0 <= j < k ==> chars@[start + j] == word@[j],
        decreases len - k,
    {
        if chars[start + k] != word.get_char(k) {
            assert(chars@.subrange(start as int, end as int)[k as int] != word@[k as int]);
            return false;
        }
        k += 1;
    }
    assert(chars@.subrange(start as int, end as int) =~= word@);
    true
}

fn scan_word_end(chars: &[char], i: usize) -> (end: usize)
    requires
        i <= chars@.len(),
    ensures
        end == word_end(chars@, i as int),
        i <= end <= chars@.len(),
{
    let mut j: usize = i;
    while j < chars.len() && word_char(chars[j])
        invariant
            i <= j <= chars@.len(),
            word_end(chars@, i as int) == word_end(chars@, j as int),
        decreases chars@.len() - j,
    {
        j += 1;
    }
    j
}

fn scan_line_end(chars: &[char], i: usize) -> (end: usize)
    requires
        i <= chars@.len(),
    ensures
        end == line_end(chars@, i as int),
        i <= end <= chars@.len(),
{
    let mut j: usize = i;
    while j < chars.len() && chars[j] != '\n'
        invariant
            i <= j <= chars@.len(),
            line_end(chars@, i as int) == line_end(chars@, j as int),
        decreases chars@.len() - j,
    {
        j += 1;
    }
    j
}

fn scan_string_end(chars: &[char], i: usize) -> (end: Option<usize>)
    requires
        i <= chars@.len(),
    ensures
        match end {
            Some(e) => string_end(chars@, i as int) == Some(e as int) && i < e <= chars@.len(),
            None => string_end(chars@, i as int) is None,
        },
{
    let n = chars.len();
    let mut j: usize = i;
    while j < n
        invariant
            n == chars@.len(),
            i <= j <= n,
            string_end(chars@, i as int) == string_end(chars@, j as int),
        decreases n - j,
    {
        if chars[j] == '"' {
            return Some(j + 1);
        }
        if chars[j] == '\\' && n - j > 1 {
            j += 2;
        } else {
            j += 1;
        }
    }
    None
}

fn scan_quote_end(chars: &[char], i: usize) -> (end: Option<usize>)
    requires
        i <= chars@.len(),
    ensures
        match end {
            Some(e) => quote_end(chars@, i as int) == Some(e as int) && i < e <= chars@.len(),
            None => quote_end(chars@, i as int) is None,
        },
{
    let n = chars.len();
    let mut j: usize = i;
    while j < n
        invariant
            n == chars@.len(),
            i <= j <= n,
            quote_end(chars@, i as int) == quote_end(chars@, j as int),
        decreases n - j,
    {
        if chars[j] == '\n' {
            return None;
        }
        if chars[j] == '\'' {
            return Some(j + 1);
        }
        j += 1;
    }
    None
}

fn scan_char_literal_end(chars: &[char], i: usize) -> (end: Option<usize>)
    requires
        i < chars@.len(),
    ensures
        match end {
            Some(e) => char_literal_end(chars@, i as int) == Some(e as int) && i < e
                <= chars@.len(),
            None => char_literal_end(chars@, i as int) is None,
        },
{
    let n = chars.len();
    if n - i > 2 && chars[i + 1] != '\\' && chars[i + 1] != '\'' && chars[i + 2] == '\'' {
        Some(i + 3)
    } else if n - i > 1 && chars[i + 1] == '\\' {
        if n - i > 3 {
            scan_quote_end(chars, i + 3)
        } else {
            None
        }
    } else {
        None
    }
}

fn kind_of_word(chars: &[char], start: usize, end: usize) -> (kind: TokenKind)
    requires
        start < end <= chars@.len(),
    ensures
        kind == word_kind(chars@.subrange(start as int, end as int)),
{
    if spells(chars, start, end, "struct") {
        TokenKind::Struct
    } else if spells(chars, start, end, "enum") {
        TokenKind::Enum
    } else if spells(chars, start, end, "trait") {
        TokenKind::Trait
    } else if spells(chars, start, end, "impl") {
        TokenKind::Impl
    } else if spells(chars, start, end, "fn") {
        TokenKind::Fn
    } else if spells(chars, start, end, "mod") {
        TokenKind::Mod
    } else if spells(chars, start, end, "use") {
        TokenKind::Use
    } else if spells(chars, start, end, "pub") {
        TokenKind::Pub
    } else if spells(chars, start, end, "for") {
        TokenKind::For
    } else if spells(chars, start, end, "mut") {
        TokenKind::Mut
    } else if spells(chars, start, end, "dyn") {
        TokenKind::Dyn
    } else if spells(chars, start, end, "self") {
        TokenKind::SelfValue
    } else if digit_char(chars[start]) {
        TokenKind::Literal
    } else {
        TokenKind::Ident
    }
}

fn kind_of_symbol(c: char) -> (kind: TokenKind)
    ensures
        kind == symbol_kind(c),
{
    if c == '{' {
        TokenKind::OpenBrace
    } else if c == '}' {
        TokenKind::CloseBrace
    } else if c == '(' {
        TokenKind::OpenParen
    } else if c == ')' {
        TokenKind::CloseParen
    } else if c == '[' {
        TokenKind::OpenBracket
    } else if c == ']' {
        TokenKind::CloseBracket
    } else if c == '<' {
        TokenKind::Less
    } else if c == '>' {
        TokenKind::Greater
    } else if c == ',' {
        TokenKind::Comma
    } else if c == ';' {
        TokenKind::Semi
    } else if c == ':' {
        TokenKind::Colon
    } else if c == '#' {
        TokenKind::Hash
    } else if c == '&' {
        TokenKind::Amp
    } else {
        TokenKind::Punct
    }
}

fn scan_token(chars: &[char], i: usize) -> (token: Token)
    requires
        i < chars@.len(),
    ensures
        token == token_at(chars@, i as int),
        token.start == i,
        i < token.end <= chars@.len(),
        token.end == token_end(chars@, i as int),
{
    let n = chars.len();
    let c = chars[i];
    proof {
        lemma_token_end_bounds(chars@, i as int);
    }
    if word_char(c) {
        let end = scan_word_end(chars, i + 1);
        Token { kind: kind_of_word(chars, i, end), start: i, end }
    } else if c == '"' {
        match scan_string_end(chars, i + 1) {
            Some(end) => Token { kind: TokenKind::Literal, start: i, end },
            None => Token { kind: TokenKind::Unclosed, start: i, end: n },
        }
    } else if c == '\'' {
        match scan_char_literal_end(chars, i) {
            Some(end) => Token { kind: TokenKind::Literal, start: i, end },
            None => {
                let end = scan_word_end(chars, i + 1);
                if end > i + 1 {
                    Token { kind: TokenKind::Lifetime, start: i, end }
                } else {
                    Token { kind: TokenKind::Unclosed, start: i, end: i + 1 }
                }
            },
        }
    } else if c == '-' && n - i > 1 && chars[i + 1] == '>' {
        Token { kind: TokenKind::Arrow, start: i, end: i + 2 }
    } else if c == ':' && n - i > 1 && chars[i + 1] == ':' {
        Token { kind: TokenKind::PathSep, start: i, end: i + 2 }
    } else {
        Token { kind: kind_of_symbol(c), start: i, end: i + 1 }
    }
}

/// The tokens of the characters `chars`.
pub fn tokenize_chars(chars: &[char]) -> (tokens: Vec<Token>)
    ensures
        tokens@ == tokens_of(chars@),
{
    let n = chars.len();
    let mut tokens: Vec<Token> = Vec::new();
    let mut i: usize = 0;
    while i < n
        invariant
            n == chars@.len(),
            i <= n,
            tokens_of(chars@) == tokens@ + tokens_from(chars@, i as int),
        decreases n - i,
    {
        let c = chars[i];
        if space_char(c) {
            i += 1;
        } else if c == '/' && n - i > 1 && chars[i + 1] == '/' {
            i = scan_line_end(chars, i + 2);
        } else {
            let token = scan_token(chars, i);
            assert(tokens@ + (seq![token] + tokens_from(chars@, token.end as int))
                =~= tokens@.push(token) + tokens_from(chars@, token.end as int));
            tokens.push(token);
            i = token.end;
        }
    }
    assert(tokens@ + Seq::<Token>::empty() =~= tokens@);
    tokens
}

/// The tokens of `text`.
pub fn tokenize(text: &str) -> (tokens: Vec<Token>)
    ensures
        tokens@ == tokens_of(text@),
{
    let chars = chars_of(text);
    tokenize_chars(chars.as_slice())
}

} // verus!
