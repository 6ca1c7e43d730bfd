//! The parser: one pass over the tokens of a text that builds its declarations.

use crate::error::{diagnosis, locate, ParseError, ParseErrorView};
use crate::grammar::{
    annotation, attribute_end, attributes, block_end, container_kind, data_type, declaration,
    declarations, fields, function, head, import, import_end, in_type, inner_scope, is_item_keyword,
    is_opaque, is_spaced, is_wordy, item, items, kind_at, parameter, parameters, receiver_end,
    joined, signature, token_text, type_end, unexpected, variants, Fault, Head, ParseOptions, Scope,
    Signature, Source, Step,
};
use crate::lexer::{chars_of, tokenize_chars};
use crate::node::{
    descriptors_view, forest_view, holds_tag, lemma_forest_view_push, option_view, strings_view,
    DeclKind, Declaration, DeclarationNode, Descriptor, DescriptorView, Visibility,
};
use crate::strings::string_of;
use crate::token::{lemma_tokens_fit, tokens_fit, tokens_of, Token, TokenKind};
use vstd::prelude::*;
use vstd::slice::slice_subrange;
use vstd::string::*;

verus! {

/// A text with its tokens.
pub open spec fn source_of(text: Seq<char>) -> Source {
    Source { text, tokens: tokens_of(text) }
}

/// What [`parse_with`] returns for a text: its declarations, or the error for
/// the first token that does not fit the grammar.
pub open spec fn parsed(text: Seq<char>, options: ParseOptions) -> Result<
    Seq<Declaration>,
    ParseErrorView,
> {
    match declarations(source_of(text), options) {
        Ok(found) => Ok(found),
        Err(fault) => Err(diagnosis(source_of(text), fault)),
    }
}

/// The characters of a text and its tokens.
pub struct Lexed {
    pub chars: Vec<char>,
    pub tokens: Vec<Token>,
}

impl View for Lexed {
    type V = Source;

    open spec fn view(&self) -> Source {
        Source { text: self.chars@, tokens: self.tokens@ }
    }
}

impl Lexed {
    /// Whether the tokens fit the characters.
    pub open spec fn fits(&self) -> bool {
        tokens_fit(self.tokens@, self.chars@.len()) && self.tokens@.len() == self.tokens.len()
    }
}

/// Splits a text into characters and tokens.
pub fn lex(text: &str) -> (lexed: Lexed)
    ensures
        lexed@ == source_of(text@),
        lexed.fits(),
{
    let chars = chars_of(text);
    let tokens = tokenize_chars(chars.as_slice());
    proof {
        assert(chars@.len() == chars.len());
        assert(tokens@.len() == tokens.len());
        lemma_tokens_fit(chars@);
    }
    Lexed { chars, tokens }
}

fn at(lx: &Lexed, pos: usize, kind: TokenKind) -> (yes: bool)
    ensures
        yes == (kind_at(lx@.tokens, pos as int) == Some(kind)),
{
    pos < lx.tokens.len() && lx.tokens[pos].kind == kind
}

fn item_keyword(kind: TokenKind) -> (yes: bool)
    ensures
        yes == is_item_keyword(kind),
{
    match kind {
        TokenKind::Struct
        | TokenKind::Enum
        | TokenKind::Trait
        | TokenKind::Impl
        | TokenKind::Fn
        | TokenKind::Mod
        | TokenKind::Use => true,
        _ => false,
    }
}

fn opaque(kind: TokenKind) -> (yes: bool)
    ensures
        yes == is_opaque(kind),
{
    !item_keyword(kind) && kind != TokenKind::Unclosed
}

fn type_token(kind: TokenKind) -> (yes: bool)
    ensures
        yes == in_type(kind),
{
    opaque(kind) && kind != TokenKind::OpenBrace && kind != TokenKind::CloseBrace && kind
        != TokenKind::Hash && kind != TokenKind::Pub && kind != TokenKind::Colon
}

fn unexpected_at(lx: &Lexed, open: Option<usize>, pos: usize, in_signature: bool) -> (fault: Fault)
    ensures
        fault == unexpected(lx@.tokens, open, pos as int, in_signature),
{
    match open {
        Some(brace) if pos >= lx.tokens.len() => Fault::UnterminatedBlock(brace),
        _ => if in_signature {
            Fault::MalformedSignature(pos)
        } else {
            Fault::UnknownConstruct(pos)
        },
    }
}

pub(crate) fn token_string(lx: &Lexed, pos: usize) -> (text: String)
    requires
        lx.fits(),
        pos < lx.tokens@.len(),
    ensures
        text@ == token_text(lx@, pos as int),
        text@.len() > 0,
{
    let start = lx.tokens[pos].start;
    let end = lx.tokens[pos].end;
    string_of(slice_subrange(lx.chars.as_slice(), start, end))
}

fn wordy(kind: TokenKind) -> (yes: bool)
    ensures
        yes == is_wordy(kind),
{
    match kind {
        TokenKind::Ident
        | TokenKind::Literal
        | TokenKind::Lifetime
        | TokenKind::For
        | TokenKind::Mut
        | TokenKind::Dyn
        | TokenKind::SelfValue
        | TokenKind::Pub => true,
        _ => item_keyword(kind),
    }
}

pub(crate) fn spaced(left: TokenKind, right: TokenKind) -> (yes: bool)
    ensures
        yes == is_spaced(left, right),
{
    let closes = right == TokenKind::CloseParen || right == TokenKind::CloseBracket || right
        == TokenKind::CloseBrace || right == TokenKind::Greater || right == TokenKind::Comma
        || right == TokenKind::Semi;
    ((left == TokenKind::Comma || left == TokenKind::Semi || left == TokenKind::Colon) && !closes)
        || left == TokenKind::Arrow || right == TokenKind::Arrow || (wordy(left) && wordy(right))
        || (left == TokenKind::Punct && (right == TokenKind::Punct || right == TokenKind::Greater))
        || ((left == TokenKind::CloseBrace || left == TokenKind::CloseBracket) && (wordy(right)
        || right == TokenKind::Hash)) || (right == TokenKind::OpenBrace && (wordy(left) || left
        == TokenKind::CloseParen || left == TokenKind::Greater || left == TokenKind::CloseBracket))
}

fn span_string(lx: &Lexed, first: usize, last: usize) -> (text: String)
    requires
        lx.fits(),
        first <= last < lx.tokens@.len(),
    ensures
        text@ == joined(lx@, first as int, last as int),
        text@.len() > 0,
{
    let mut text = token_string(lx, first);
    let mut pos: usize = first;
    while pos < last
        invariant
            lx.fits(),
            first <= pos <= last < lx.tokens@.len(),
            text@ == joined(lx@, first as int, pos as int),
            text@.len() > 0,
        decreases last - pos,
    {
        pos += 1;
        if spaced(lx.tokens[pos - 1].kind, lx.tokens[pos].kind) {
            proof {
                reveal_strlit(" ");
                assert(" "@ =~= seq![' ']);
            }
            text.append(" ");
        } else {
            assert(text@ + Seq::<char>::empty() =~= text@);
        }
        let spelling = token_string(lx, pos);
        text.append(spelling.as_str());
    }
    text
}

fn skip_block(lx: &Lexed, open: usize, start: usize) -> (end: Result<usize, Fault>)
    requires
        start <= lx.tokens@.len(),
    ensures
        match end {
            Ok(next) => block_end(lx@.tokens, open, start as int, 0) == Ok::<int, Fault>(
                next as int,
            ) && start < next <= lx.tokens@.len(),
            Err(fault) => block_end(lx@.tokens, open, start as int, 0) == Err::<int, Fault>(fault),
        },
{
    let n = lx.tokens.len();
    let mut pos: usize = start;
    let mut depth: usize = 0;
    while pos < n
        invariant
            n == lx.tokens@.len(),
            start <= pos <= n,
            depth <= pos - start,
            block_end(lx@.tokens, open, start as int, 0) == block_end(
                lx@.tokens,
                open,
                pos as int,
                depth as nat,
            ),
        decreases n - pos,
    {
        let kind = lx.tokens[pos].kind;
        if !opaque(kind) {
            return Err(Fault::UnknownConstruct(pos));
        }
        if kind == TokenKind::OpenBrace {
            depth += 1;
        } else if kind == TokenKind::CloseBrace {
            if depth == 0 {
                return Ok(pos + 1);
            }
            depth -= 1;
        }
        pos += 1;
    }
    Err(Fault::UnterminatedBlock(open))
}

fn scan_attribute_end(lx: &Lexed, open: Option<usize>, start: usize) -> (end: Result<usize, Fault>)
    requires
        start <= lx.tokens@.len(),
    ensures
        match end {
            Ok(close) => attribute_end(lx@.tokens, open, start as int, 0) == Ok::<int, Fault>(
                close as int,
            ) && start <= close < lx.tokens@.len(),
            Err(fault) => attribute_end(lx@.tokens, open, start as int, 0) == Err::<int, Fault>(
                fault,
            ),
        },
{
    let n = lx.tokens.len();
    let mut pos: usize = start;
    let mut depth: usize = 0;
    while pos < n
        invariant
            n == lx.tokens@.len(),
            start <= pos <= n,
            depth <= pos - start,
            attribute_end(lx@.tokens, open, start as int, 0) == attribute_end(
                lx@.tokens,
                open,
                pos as int,
                depth as nat,
            ),
        decreases n - pos,
    {
        let kind = lx.tokens[pos].kind;
        if !opaque(kind) {
            return Err(Fault::UnknownConstruct(pos));
        }
        if kind == TokenKind::OpenBracket {
            depth += 1;
        } else if kind == TokenKind::CloseBracket {
            if depth == 0 {
                return Ok(pos);
            }
            depth -= 1;
        }
        pos += 1;
    }
    Err(unexpected_at(lx, open, pos, false))
}

fn scan_import_end(lx: &Lexed, open: Option<usize>, start: usize) -> (end: Result<usize, Fault>)
    requires
        start <= lx.tokens@.len(),
    ensures
        match end {
            Ok(semi) => import_end(lx@.tokens, open, start as int) == Ok::<int, Fault>(semi as int)
                && start <= semi < lx.tokens@.len(),
            Err(fault) => import_end(lx@.tokens, open, start as int) == Err::<int, Fault>(fault),
        },
{
    let n = lx.tokens.len();
    let mut pos: usize = start;
    while pos < n
        invariant
            n == lx.tokens@.len(),
            start <= pos <= n,
            import_end(lx@.tokens, open, start as int) == import_end(lx@.tokens, open, pos as int),
        decreases n - pos,
    {
        let kind = lx.tokens[pos].kind;
        if !opaque(kind) {
            return Err(Fault::UnknownConstruct(pos));
        }
        if kind == TokenKind::Semi {
            return Ok(pos);
        }
        pos += 1;
    }
    Err(unexpected_at(lx, open, pos, false))
}

fn scan_type_end(lx: &Lexed, start: usize) -> (end: (usize, usize))
    requires
        start <= lx.tokens@.len(),
    ensures
        type_end(lx@.tokens, start as int, 0) == (end.0 as int, end.1 as nat),
        start <= end.0 <= lx.tokens@.len(),
{
    let n = lx.tokens.len();
    let mut pos: usize = start;
    let mut depth: usize = 0;
    while pos < n
        invariant
            n == lx.tokens@.len(),
            start <= pos <= n,
            depth <= pos - start,
            type_end(lx@.tokens, start as int, 0) == type_end(lx@.tokens, pos as int, depth as nat),
        decreases n - pos,
    {
        let kind = lx.tokens[pos].kind;
        if !type_token(kind) || (kind == TokenKind::Ident && pos > 0 && at(lx, pos - 1, TokenKind::Ident)) {
            return (pos, depth);
        }
        if kind == TokenKind::Less || kind == TokenKind::OpenParen || kind
            == TokenKind::OpenBracket {
            depth += 1;
        } else if kind == TokenKind::Greater || kind == TokenKind::CloseParen || kind
            == TokenKind::CloseBracket {
            if depth == 0 {
                return (pos, depth);
            }
            depth -= 1;
        } else if (kind == TokenKind::Comma || kind == TokenKind::Semi) && depth == 0 {
            return (pos, depth);
        }
        pos += 1;
    }
    (pos, depth)
}

fn parse_annotation(lx: &Lexed, open: Option<usize>, pos: usize, in_signature: bool) -> (found:
    Result<(String, usize), Fault>)
    requires
        lx.fits(),
        pos <= lx.tokens@.len(),
    ensures
        match found {
            Ok((text, end)) => annotation(lx@, open, pos as int, in_signature) == Step::Done(
                text@,
                end as int,
            ) && pos < end <= lx.tokens@.len(),
            Err(fault) => annotation(lx@, open, pos as int, in_signature) == Step::<
                Seq<char>,
            >::Fail(fault),
        },
{
    let (end, depth) = scan_type_end(lx, pos);
    if end == pos || depth != 0 {
        Err(unexpected_at(lx, open, end, in_signature))
    } else {
        Ok((span_string(lx, pos, end - 1), end))
    }
}

fn parse_attributes(lx: &Lexed, open: Option<usize>, start: usize) -> (found: Result<
    (Vec<String>, usize),
    Fault,
>)
    requires
        lx.fits(),
        start <= lx.tokens@.len(),
    ensures
        match found {
            Ok((tags, next)) => attributes(lx@, open, start as int, Seq::empty()) == Step::Done(
                strings_view(tags@),
                next as int,
            ) && start <= next <= lx.tokens@.len(),
            Err(fault) => attributes(lx@, open, start as int, Seq::empty()) == Step::<
                Seq<Seq<char>>,
            >::Fail(fault),
        },
{
    let n = lx.tokens.len();
    let mut tags: Vec<String> = Vec::new();
    let mut pos: usize = start;
    assert(strings_view(tags@) =~= Seq::empty());
    loop
        invariant
            lx.fits(),
            n == lx.tokens@.len(),
            start <= pos <= n,
            attributes(lx@, open, start as int, Seq::empty()) == attributes(
                lx@,
                open,
                pos as int,
                strings_view(tags@),
            ),
        decreases n - pos,
    {
        if !at(lx, pos, TokenKind::Hash) {
            return Ok((tags, pos));
        }
        if !at(lx, pos + 1, TokenKind::OpenBracket) {
            return Err(unexpected_at(lx, open, pos + 1, false));
        }
        let close = match scan_attribute_end(lx, open, pos + 2) {
            Ok(close) => close,
            Err(fault) => {
                return Err(fault);
            },
        };
        if close == pos + 2 {
            return Err(Fault::UnknownConstruct(close));
        }
        let tag = span_string(lx, pos + 2, close - 1);
        assert(strings_view(tags@.push(tag)) =~= strings_view(tags@).push(tag@));
        tags.push(tag);
        pos = close + 1;
    }
}

fn parse_fields(lx: &Lexed, open: Option<usize>, start: usize) -> (found: Result<
    (Vec<Descriptor>, usize),
    Fault,
>)
    requires
        lx.fits(),
        start <= lx.tokens@.len(),
    ensures
        match found {
            Ok((members, next)) => fields(lx@, open, start as int, Seq::empty()) == Step::Done(
                descriptors_view(members@),
                next as int,
            ) && start < next <= lx.tokens@.len(),
            Err(fault) => fields(lx@, open, start as int, Seq::empty()) == Step::<
                Seq<DescriptorView>,
            >::Fail(fault),
        },
{
    let n = lx.tokens.len();
    let mut members: Vec<Descriptor> = Vec::new();
    let mut pos: usize = start;
    assert(descriptors_view(members@) =~= Seq::empty());
    loop
        invariant
            lx.fits(),
            n == lx.tokens@.len(),
            start <= pos <= n,
            fields(lx@, open, start as int, Seq::empty()) == fields(
                lx@,
                open,
                pos as int,
                descriptors_view(members@),
            ),
        decreases n - pos,
    {
        if at(lx, pos, TokenKind::CloseBrace) {
            return Ok((members, pos + 1));
        }
        if !at(lx, pos, TokenKind::Ident) {
            return Err(unexpected_at(lx, open, pos, false));
        }
        if !at(lx, pos + 1, TokenKind::Colon) {
            return Err(unexpected_at(lx, open, pos + 1, false));
        }
        let (text, end) = match parse_annotation(lx, open, pos + 2, false) {
            Ok(found) => found,
            Err(fault) => {
                return Err(fault);
            },
        };
        let field = Descriptor { name: token_string(lx, pos), annotation: text };
        assert(descriptors_view(members@.push(field)) =~= descriptors_view(members@).push(field@));
        members.push(field);
        if at(lx, end, TokenKind::Comma) {
            pos = end + 1;
        } else if at(lx, end, TokenKind::CloseBrace) {
            return Ok((members, end + 1));
        } else {
            return Err(unexpected_at(lx, open, end, false));
        }
    }
}

fn parse_variants(lx: &Lexed, open: Option<usize>, start: usize) -> (found: Result<
    (Vec<Descriptor>, usize),
    Fault,
>)
    requires
        lx.fits(),
        start <= lx.tokens@.len(),
    ensures
        match found {
            Ok((members, next)) => variants(lx@, open, start as int, Seq::empty()) == Step::Done(
                descriptors_view(members@),
                next as int,
            ) && start < next <= lx.tokens@.len(),
            Err(fault) => variants(lx@, open, start as int, Seq::empty()) == Step::<
                Seq<DescriptorView>,
            >::Fail(fault),
        },
{
    let n = lx.tokens.len();
    let mut members: Vec<Descriptor> = Vec::new();
    let mut pos: usize = start;
    assert(descriptors_view(members@) =~= Seq::empty());
    loop
        invariant
            lx.fits(),
            n == lx.tokens@.len(),
            start <= pos <= n,
            variants(lx@, open, start as int, Seq::empty()) == variants(
                lx@,
                open,
                pos as int,
                descriptors_view(members@),
            ),
        decreases n - pos,
    {
        if at(lx, pos, TokenKind::CloseBrace) {
            return Ok((members, pos + 1));
        }
        if !at(lx, pos, TokenKind::Ident) {
            return Err(unexpected_at(lx, open, pos, false));
        }
        let variant = Descriptor { name: token_string(lx, pos), annotation: String::new() };
        assert(descriptors_view(members@.push(variant)) =~= descriptors_view(members@).push(
            variant@,
        ));
        members.push(variant);
        if at(lx, pos + 1, TokenKind::Comma) {
            pos = pos + 2;
        } else if at(lx, pos + 1, TokenKind::CloseBrace) {
            return Ok((members, pos + 2));
        } else {
            return Err(unexpected_at(lx, open, pos + 1, false));
        }
    }
}

fn scan_receiver_end(lx: &Lexed, pos: usize) -> (end: Option<usize>)
    requires
        lx.fits(),
        pos <= lx.tokens@.len(),
    ensures
        match end {
            Some(after) => receiver_end(lx@.tokens, pos as int) == Some(after as int) && pos
                < after <= lx.tokens@.len(),
            None => receiver_end(lx@.tokens, pos as int) is None,
        },
{
    let after_amp = if at(lx, pos, TokenKind::Amp) {
        pos + 1
    } else {
        pos
    };
    let after_mut = if at(lx, after_amp, TokenKind::Mut) {
        after_amp + 1
    } else {
        after_amp
    };
    if at(lx, after_mut, TokenKind::SelfValue) {
        Some(after_mut + 1)
    } else {
        None
    }
}

fn parse_parameter(lx: &Lexed, open: Option<usize>, pos: usize) -> (found: Result<
    (Descriptor, usize),
    Fault,
>)
    requires
        lx.fits(),
        pos <= lx.tokens@.len(),
    ensures
        match found {
            Ok((param, end)) => parameter(lx@, open, pos as int) == Step::Done(param@, end as int)
                && pos < end <= lx.tokens@.len(),
            Err(fault) => parameter(lx@, open, pos as int) == Step::<DescriptorView>::Fail(fault),
        },
{
    match scan_receiver_end(lx, pos) {
        Some(end) => Ok(
            (
                Descriptor {
                    name: token_string(lx, end - 1),
                    annotation: span_string(lx, pos, end - 1),
                },
                end,
            ),
        ),
        None => {
            if !at(lx, pos, TokenKind::Ident) {
                return Err(unexpected_at(lx, open, pos, true));
            }
            if !at(lx, pos + 1, TokenKind::Colon) {
                return Err(unexpected_at(lx, open, pos + 1, true));
            }
            match parse_annotation(lx, open, pos + 2, true) {
                Ok((text, end)) => Ok(
                    (Descriptor { name: token_string(lx, pos), annotation: text }, end),
                ),
                Err(fault) => Err(fault),
            }
        },
    }
}

fn parse_parameters(lx: &Lexed, open: Option<usize>, start: usize) -> (found: Result<
    (Vec<Descriptor>, usize),
    Fault,
>)
    requires
        lx.fits(),
        start <= lx.tokens@.len(),
    ensures
        match found {
            Ok((members, next)) => parameters(lx@, open, start as int, Seq::empty()) == Step::Done(
                descriptors_view(members@),
                next as int,
            ) && start < next <= lx.tokens@.len(),
            Err(fault) => parameters(lx@, open, start as int, Seq::empty()) == Step::<
                Seq<DescriptorView>,
            >::Fail(fault),
        },
{
    let n = lx.tokens.len();
    let mut members: Vec<Descriptor> = Vec::new();
    let mut pos: usize = start;
    assert(descriptors_view(members@) =~= Seq::empty());
    loop
        invariant
            lx.fits(),
            n == lx.tokens@.len(),
            start <= pos <= n,
            parameters(lx@, open, start as int, Seq::empty()) == parameters(
                lx@,
                open,
                pos as int,
                descriptors_view(members@),
            ),
        decreases n - pos,
    {
        if at(lx, pos, TokenKind::CloseParen) {
            return Ok((members, pos + 1));
        }
        let (param, end) = match parse_parameter(lx, open, pos) {
            Ok(found) => found,
            Err(fault) => {
                return Err(fault);
            },
        };
        assert(descriptors_view(members@.push(param)) =~= descriptors_view(members@).push(param@));
        members.push(param);
        if at(lx, end, TokenKind::Comma) {
            pos = end + 1;
        } else if at(lx, end, TokenKind::CloseParen) {
            return Ok((members, end + 1));
        } else {
            return Err(unexpected_at(lx, open, end, true));
        }
    }
}

/// The parts of a function's signature.
pub struct SignatureParts {
    pub name: String,
    pub parameters: Vec<Descriptor>,
    pub return_annotation: Option<String>,
}

impl View for SignatureParts {
    type V = Signature;

    open spec fn view(&self) -> Signature {
        Signature {
            name: self.name@,
            parameters: descriptors_view(self.parameters@),
            return_annotation: option_view(self.return_annotation),
        }
    }
}

fn parse_signature(lx: &Lexed, open: Option<usize>, pos: usize) -> (found: Result<
    (SignatureParts, usize),
    Fault,
>)
    requires
        lx.fits(),
        pos < lx.tokens@.len(),
    ensures
        match found {
            Ok((sig, end)) => signature(lx@, open, pos as int) == Step::Done(sig@, end as int)
                && pos < end <= lx.tokens@.len() && sig@.name.len() > 0,
            Err(fault) => signature(lx@, open, pos as int) == Step::<Signature>::Fail(fault),
        },
{
    if !at(lx, pos + 1, TokenKind::Ident) {
        return Err(unexpected_at(lx, open, pos + 1, true));
    }
    if !at(lx, pos + 2, TokenKind::OpenParen) {
        return Err(unexpected_at(lx, open, pos + 2, true));
    }
    let (parameters, after) = match parse_parameters(lx, open, pos + 3) {
        Ok(found) => found,
        Err(fault) => {
            return Err(fault);
        },
    };
    if at(lx, after, TokenKind::Arrow) {
        match parse_annotation(lx, open, after + 1, true) {
            Ok((text, end)) => Ok(
                (
                    SignatureParts {
                        name: token_string(lx, pos + 1),
                        parameters,
                        return_annotation: Some(text),
                    },
                    end,
                ),
            ),
            Err(fault) => Err(fault),
        }
    } else {
        Ok(
            (
                SignatureParts {
                    name: token_string(lx, pos + 1),
                    parameters,
                    return_annotation: None,
                },
                after,
            ),
        )
    }
}

fn parse_function(
    lx: &Lexed,
    scope: Scope,
    open: Option<usize>,
    pos: usize,
    tags: Vec<String>,
    visibility: Visibility,
) -> (found: Result<(DeclarationNode, usize), Fault>)
    requires
        lx.fits(),
        pos < lx.tokens@.len(),
    ensures
        match found {
            Ok((node, next)) => function(
                lx@,
                scope,
                open,
                pos as int,
                strings_view(tags@),
                visibility,
            ) == Step::Done(node@, next as int) && pos < next <= lx.tokens@.len(),
            Err(fault) => function(lx@, scope, open, pos as int, strings_view(tags@), visibility)
                == Step::<Declaration>::Fail(fault),
        },
{
    let (sig, end) = match parse_signature(lx, open, pos) {
        Ok(found) => found,
        Err(fault) => {
            return Err(fault);
        },
    };
    let next = if scope == Scope::Contract {
        if !at(lx, end, TokenKind::Semi) {
            return Err(unexpected_at(lx, open, end, true));
        }
        end + 1
    } else {
        if !at(lx, end, TokenKind::OpenBrace) {
            return Err(unexpected_at(lx, open, end, true));
        }
        match skip_block(lx, end, end + 1) {
            Ok(next) => next,
            Err(fault) => {
                return Err(fault);
            },
        }
    };
    let kind = if holds_tag(&tags, "test") {
        DeclKind::TestCase
    } else {
        DeclKind::Function
    };
    let node = DeclarationNode {
        kind,
        name: sig.name,
        visibility,
        tags,
        members: sig.parameters,
        return_annotation: sig.return_annotation,
        contract: None,
        children: Vec::new(),
    };
    assert(forest_view(node.children@) =~= Seq::empty());
    Ok((node, next))
}

fn parse_import(
    lx: &Lexed,
    open: Option<usize>,
    pos: usize,
    tags: Vec<String>,
    visibility: Visibility,
) -> (found: Result<(DeclarationNode, usize), Fault>)
    requires
        lx.fits(),
        pos < lx.tokens@.len(),
    ensures
        match found {
            Ok((node, next)) => import(lx@, open, pos as int, strings_view(tags@), visibility)
                == Step::Done(node@, next as int) && pos < next <= lx.tokens@.len(),
            Err(fault) => import(lx@, open, pos as int, strings_view(tags@), visibility) == Step::<
                Declaration,
            >::Fail(fault),
        },
{
    let semi = match scan_import_end(lx, open, pos + 1) {
        Ok(semi) => semi,
        Err(fault) => {
            return Err(fault);
        },
    };
    if semi == pos + 1 {
        return Err(Fault::UnknownConstruct(semi));
    }
    let node = DeclarationNode {
        kind: DeclKind::Import,
        name: span_string(lx, pos + 1, semi - 1),
        visibility,
        tags,
        members: Vec::new(),
        return_annotation: None,
        contract: None,
        children: Vec::new(),
    };
    assert(forest_view(node.children@) =~= Seq::empty());
    assert(descriptors_view(node.members@) =~= Seq::empty());
    Ok((node, semi + 1))
}

fn parse_data_type(
    lx: &Lexed,
    open: Option<usize>,
    pos: usize,
    is_enum: bool,
    tags: Vec<String>,
    visibility: Visibility,
) -> (found: Result<(DeclarationNode, usize), Fault>)
    requires
        lx.fits(),
        pos < lx.tokens@.len(),
    ensures
        match found {
            Ok((node, next)) => data_type(
                lx@,
                open,
                pos as int,
                is_enum,
                strings_view(tags@),
                visibility,
            ) == Step::Done(node@, next as int) && pos < next <= lx.tokens@.len(),
            Err(fault) => data_type(
                lx@,
                open,
                pos as int,
                is_enum,
                strings_view(tags@),
                visibility,
            ) == Step::<Declaration>::Fail(fault),
        },
{
    if !at(lx, pos + 1, TokenKind::Ident) {
        return Err(unexpected_at(lx, open, pos + 1, false));
    }
    if !at(lx, pos + 2, TokenKind::OpenBrace) {
        return Err(unexpected_at(lx, open, pos + 2, false));
    }
    let listed = if is_enum {
        parse_variants(lx, Some(pos + 2), pos + 3)
    } else {
        parse_fields(lx, Some(pos + 2), pos + 3)
    };
    let (members, next) = match listed {
        Ok(found) => found,
        Err(fault) => {
            return Err(fault);
        },
    };
    let node = DeclarationNode {
        kind: if is_enum {
            DeclKind::Enumeration
        } else {
            DeclKind::StructuredType
        },
        name: token_string(lx, pos + 1),
        visibility,
        tags,
        members,
        return_annotation: None,
        contract: None,
        children: Vec::new(),
    };
    assert(forest_view(node.children@) =~= Seq::empty());
    Ok((node, next))
}

/// The name of a container and the contract that it implements.
pub struct HeadParts {
    pub name: String,
    pub contract: Option<String>,
}

impl View for HeadParts {
    type V = Head;

    open spec fn view(&self) -> Head {
        Head { name: self.name@, contract: option_view(self.contract) }
    }
}

fn parse_head(lx: &Lexed, open: Option<usize>, pos: usize) -> (found: Result<
    (HeadParts, usize),
    Fault,
>)
    requires
        lx.fits(),
        pos < lx.tokens@.len(),
    ensures
        match found {
            Ok((named, brace)) => head(lx@, open, pos as int) == Step::Done(named@, brace as int)
                && pos < brace < lx.tokens@.len(),
            Err(fault) => head(lx@, open, pos as int) == Step::<Head>::Fail(fault),
        },
{
    if !at(lx, pos + 1, TokenKind::Ident) {
        return Err(unexpected_at(lx, open, pos + 1, false));
    }
    if at(lx, pos, TokenKind::Impl) && at(lx, pos + 2, TokenKind::For) {
        if !at(lx, pos + 3, TokenKind::Ident) {
            return Err(unexpected_at(lx, open, pos + 3, false));
        }
        if !at(lx, pos + 4, TokenKind::OpenBrace) {
            return Err(unexpected_at(lx, open, pos + 4, false));
        }
        Ok(
            (
                HeadParts {
                    name: token_string(lx, pos + 3),
                    contract: Some(token_string(lx, pos + 1)),
                },
                pos + 4,
            ),
        )
    } else {
        if !at(lx, pos + 2, TokenKind::OpenBrace) {
            return Err(unexpected_at(lx, open, pos + 2, false));
        }
        Ok((HeadParts { name: token_string(lx, pos + 1), contract: None }, pos + 2))
    }
}

fn scope_inside(keyword: TokenKind) -> (scope: Scope)
    ensures
        scope == inner_scope(keyword),
{
    if keyword == TokenKind::Trait {
        Scope::Contract
    } else if keyword == TokenKind::Impl {
        Scope::Implementation
    } else {
        Scope::Namespace
    }
}

fn kind_of_container(keyword: TokenKind) -> (kind: DeclKind)
    ensures
        kind == container_kind(keyword),
{
    if keyword == TokenKind::Trait {
        DeclKind::Contract
    } else if keyword == TokenKind::Impl {
        DeclKind::Implementation
    } else {
        DeclKind::Namespace
    }
}

fn parse_declaration(
    lx: &Lexed,
    options: ParseOptions,
    scope: Scope,
    open: Option<usize>,
    pos: usize,
    tags: Vec<String>,
    visibility: Visibility,
) -> (found: Result<(Option<DeclarationNode>, usize), Fault>)
    requires
        lx.fits(),
        pos <= lx.tokens@.len(),
    ensures
        match found {
            Ok((made, next)) => declaration(
                lx@,
                options,
                scope,
                open,
                pos as int,
                strings_view(tags@),
                visibility,
            ) == Step::Done(made_view(made), next as int) && pos < next <= lx.tokens@.len(),
            Err(fault) => declaration(
                lx@,
                options,
                scope,
                open,
                pos as int,
                strings_view(tags@),
                visibility,
            ) == Step::<Option<Declaration>>::Fail(fault),
        },
    decreases lx.tokens@.len() - pos, 0int,
{
    if pos >= lx.tokens.len() {
        return Err(unexpected_at(lx, open, pos, false));
    }
    let keyword = lx.tokens[pos].kind;
    if keyword == TokenKind::Fn {
        return match parse_function(lx, scope, open, pos, tags, visibility) {
            Ok((node, next)) => Ok((Some(node), next)),
            Err(fault) => Err(fault),
        };
    }
    if !(scope == Scope::File || scope == Scope::Namespace) || !item_keyword(keyword) {
        return Err(unexpected_at(lx, open, pos, false));
    }
    if keyword == TokenKind::Use {
        match parse_import(lx, open, pos, tags, visibility) {
            Ok((node, next)) => if options.keep_imports {
                Ok((Some(node), next))
            } else {
                Ok((None, next))
            },
            Err(fault) => Err(fault),
        }
    } else if keyword == TokenKind::Struct || keyword == TokenKind::Enum {
        match parse_data_type(lx, open, pos, keyword == TokenKind::Enum, tags, visibility) {
            Ok((node, next)) => Ok((Some(node), next)),
            Err(fault) => Err(fault),
        }
    } else {
        let (named, brace) = match parse_head(lx, open, pos) {
            Ok(found) => found,
            Err(fault) => {
                return Err(fault);
            },
        };
        let (children, next) = match parse_items(
            lx,
            options,
            scope_inside(keyword),
            Some(brace),
            brace + 1,
        ) {
            Ok(found) => found,
            Err(fault) => {
                return Err(fault);
            },
        };
        let node = DeclarationNode {
            kind: kind_of_container(keyword),
            name: named.name,
            visibility,
            tags,
            members: Vec::new(),
            return_annotation: None,
            contract: named.contract,
            children,
        };
        assert(descriptors_view(node.members@) =~= Seq::empty());
        Ok((Some(node), next))
    }
}

/// The plain value of what an item made.
pub open spec fn made_view(made: Option<DeclarationNode>) -> Option<Declaration> {
    match made {
        Some(node) => Some(node@),
        None => None,
    }
}

fn parse_item(lx: &Lexed, options: ParseOptions, scope: Scope, open: Option<usize>, pos: usize) -> (found:
    Result<(Option<DeclarationNode>, usize), Fault>)
    requires
        lx.fits(),
        pos <= lx.tokens@.len(),
    ensures
        match found {
            Ok((made, next)) => item(lx@, options, scope, open, pos as int) == Step::Done(
                made_view(made),
                next as int,
            ) && pos < next <= lx.tokens@.len(),
            Err(fault) => item(lx@, options, scope, open, pos as int) == Step::<
                Option<Declaration>,
            >::Fail(fault),
        },
    decreases lx.tokens@.len() - pos, 1int,
{
    let (tags, after) = match parse_attributes(lx, open, pos) {
        Ok(found) => found,
        Err(fault) => {
            return Err(fault);
        },
    };
    if at(lx, after, TokenKind::Pub) {
        parse_declaration(lx, options, scope, open, after + 1, tags, Visibility::Public)
    } else {
        parse_declaration(lx, options, scope, open, after, tags, Visibility::Private)
    }
}

fn parse_items(lx: &Lexed, options: ParseOptions, scope: Scope, open: Option<usize>, start: usize) -> (found:
    Result<(Vec<DeclarationNode>, usize), Fault>)
    requires
        lx.fits(),
        start <= lx.tokens@.len(),
    ensures
        match found {
            Ok((nodes, next)) => items(lx@, options, scope, open, start as int, Seq::empty())
                == Step::Done(forest_view(nodes@), next as int) && start <= next
                <= lx.tokens@.len(),
            Err(fault) => items(lx@, options, scope, open, start as int, Seq::empty()) == Step::<
                Seq<Declaration>,
            >::Fail(fault),
        },
    decreases lx.tokens@.len() - start, 2int,
{
    let n = lx.tokens.len();
    let mut nodes: Vec<DeclarationNode> = Vec::new();
    let mut pos: usize = start;
    assert(forest_view(nodes@) =~= Seq::empty());
    loop
        invariant
            lx.fits(),
            n == lx.tokens@.len(),
            start <= pos <= n,
            items(lx@, options, scope, open, start as int, Seq::empty()) == items(
                lx@,
                options,
                scope,
                open,
                pos as int,
                forest_view(nodes@),
            ),
        decreases n - pos,
    {
        if pos >= n {
            return if scope == Scope::File {
                Ok((nodes, pos))
            } else {
                Err(unexpected_at(lx, open, pos, false))
            };
        }
        if lx.tokens[pos].kind == TokenKind::CloseBrace {
            return if scope == Scope::File {
                Err(Fault::UnknownConstruct(pos))
            } else {
                Ok((nodes, pos + 1))
            };
        }
        let (made, next) = match parse_item(lx, options, scope, open, pos) {
            Ok(found) => found,
            Err(fault) => {
                return Err(fault);
            },
        };
        match made {
            Some(node) => {
                proof {
                    lemma_forest_view_push(nodes@, node);
                }
                nodes.push(node);
            },
            None => {},
        }
        pos = next;
    }
}

/// The error for a fault.
fn diagnose(lx: &Lexed, fault: Fault) -> (error: ParseError)
    requires
        lx.fits(),
    ensures
        error@ == diagnosis(lx@, fault),
{
    let n = lx.tokens.len();
    let at = match fault {
        Fault::UnterminatedBlock(at) => at,
        Fault::UnknownConstruct(at) => at,
        Fault::MalformedSignature(at) => at,
    };
    let offset = if n == 0 {
        0
    } else if at < n {
        lx.tokens[at].start
    } else {
        lx.tokens[n - 1].start
    };
    let position = locate(lx.chars.as_slice(), offset);
    match fault {
        Fault::UnterminatedBlock(_) => ParseError::UnterminatedBlock { position },
        Fault::UnknownConstruct(_) => ParseError::UnknownConstruct {
            position,
            token: if at < n {
                token_string(lx, at)
            } else {
                String::new()
            },
        },
        Fault::MalformedSignature(_) => ParseError::MalformedSignature { position },
    }
}

/// Parses a text into its declarations, in the order of the text. An empty
/// text has no declarations. A text outside the grammar gives the error for
/// its first token that does not fit, and no tree.
pub fn parse_with(text: &str, options: ParseOptions) -> (outcome: Result<
    Vec<DeclarationNode>,
    ParseError,
>)
    ensures
        match outcome {
            Ok(nodes) => parsed(text@, options) == Ok::<Seq<Declaration>, ParseErrorView>(
                forest_view(nodes@),
            ),
            Err(error) => parsed(text@, options) == Err::<Seq<Declaration>, ParseErrorView>(error@),
        },
{
    let lx = lex(text);
    match parse_items(&lx, options, Scope::File, None, 0) {
        Ok((nodes, _)) => Ok(nodes),
        Err(fault) => Err(diagnose(&lx, fault)),
    }
}

/// Parses a text into its declarations, leaving imports out.
pub fn parse(text: &str) -> (outcome: Result<Vec<DeclarationNode>, ParseError>)
    ensures
        match outcome {
            Ok(nodes) => parsed(text@, ParseOptions { keep_imports: false }) == Ok::<
                Seq<Declaration>,
                ParseErrorView,
            >(forest_view(nodes@)),
            Err(error) => parsed(text@, ParseOptions { keep_imports: false }) == Err::<
                Seq<Declaration>,
                ParseErrorView,
            >(error@),
        },
{
    parse_with(text, ParseOptions { keep_imports: false })
}

} // verus!
