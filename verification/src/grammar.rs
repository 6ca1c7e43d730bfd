//! The grammar: what the declarations of a token sequence are.
//!
//! A text is a sequence of items. An item is any number of attributes
//! `#[..]`, an optional `pub`, and one of
//!
//! * `use` path `;`
//! * `struct` name `{` name `:` type `,` .. `}`
//! * `enum` name `{` name `,` .. `}`
//! * `trait` name `{` signatures, each closed by `;` `}`
//! * `impl` name `{` functions `}` and `impl` contract `for` name `{` functions `}`
//! * `fn` name `(` parameters `)`, an optional `->` type, and a body in braces
//! * `mod` name `{` items `}`
//!
//! Attributes, paths and types are recorded as their tokens, joined; the body
//! of a function is passed over. The words `struct`, `enum`, `trait`, `impl`,
//! `fn`, `mod` and `use` are reserved for the head of an item: none of them,
//! and no unclosed quote, may stand in an attribute, a path, a type or a
//! body, so that nothing that declares is ever passed over.
//!
//! The first token that does not fit ends the parse with a fault. Where the
//! text ends inside a block, the fault is that of the innermost open block.

use crate::node::{DeclKind, Declaration, DescriptorView, Visibility};
use crate::token::{Token, TokenKind};
use vstd::prelude::*;

verus! {

/// How a text is to be parsed.
#[derive(Clone, Copy, Debug, PartialEq, Eq, Structural)]
pub struct ParseOptions {
    /// Whether an import becomes a declaration of the kind `Import`. Where it
    /// does not, imports are checked and leave no trace.
    pub keep_imports: bool,
}

impl Default for ParseOptions {
    /// Imports are not kept.
    fn default() -> (options: Self)
        ensures
            options == (ParseOptions { keep_imports: false }),
    {
        ParseOptions { keep_imports: false }
    }
}

/// A text together with its tokens.
pub struct Source {
    pub text: Seq<char>,
    pub tokens: Seq<Token>,
}

/// Why a token sequence has no parse, with the index of a token. An index equal
/// to the number of tokens stands for the end of the text.
#[derive(Clone, Copy, Debug, PartialEq, Eq, Structural)]
pub enum Fault {
    /// The text ends inside the block whose opening brace is this token.
    UnterminatedBlock(usize),
    /// This token fits no item.
    UnknownConstruct(usize),
    /// This token fits no function signature.
    MalformedSignature(usize),
}

/// The outcome of parsing one construct: what was found and the position
/// after it, or a fault.
pub enum Step<T> {
    Done(T, int),
    Fail(Fault),
}

/// Where items stand.
#[derive(Clone, Copy, Debug, PartialEq, Eq, Structural)]
pub enum Scope {
    /// The text itself.
    File,
    /// Inside `mod`: every item may stand here.
    Namespace,
    /// Inside `impl`: functions only.
    Implementation,
    /// Inside `trait`: signatures only.
    Contract,
}

/// The name, parameters and return annotation of a function.
pub struct Signature {
    pub name: Seq<char>,
    pub parameters: Seq<DescriptorView>,
    pub return_annotation: Option<Seq<char>>,
}

/// The kind of the token at `pos`, if there is one.
pub open spec fn kind_at(tokens: Seq<Token>, pos: int) -> Option<TokenKind> {
    if 0 <= pos < tokens.len() {
        Some(tokens[pos].kind)
    } else {
        None
    }
}

/// The characters of the token at `pos`.
pub open spec fn token_text(src: Source, pos: int) -> Seq<char> {
    src.text.subrange(src.tokens[pos].start as int, src.tokens[pos].end as int)
}

/// The tokens that are written like words: names, keywords, literals and
/// lifetimes.
pub open spec fn is_wordy(kind: TokenKind) -> bool {
    kind is Ident || kind is Literal || kind is Lifetime || kind is For || kind is Mut || kind is Dyn
        || kind is SelfValue || kind is Pub || is_item_keyword(kind)
}

/// The tokens that close what a bracket opened.
pub open spec fn is_closer(kind: TokenKind) -> bool {
    kind is CloseParen || kind is CloseBracket || kind is CloseBrace || kind is Greater
}

/// Whether one space stands between two tokens of these kinds where tokens
/// are joined:
///
/// * after a comma, a semicolon and a colon, unless a closing bracket, a
///   comma or a semicolon follows; around an arrow;
/// * between two tokens that are written like words;
/// * between two tokens that would read as another token if they touched
///   (`-` and `>`, `/` and `/`);
/// * after `}` and `]` before a word or `#`, and before `{` after a word, `)`,
///   `>` or `]`.
pub open spec fn is_spaced(left: TokenKind, right: TokenKind) -> bool {
    ||| (left is Comma || left is Semi || left is Colon) && !is_closer(right) && !(right
        is Comma) && !(right is Semi)
    ||| left is Arrow
    ||| right is Arrow
    ||| is_wordy(left) && is_wordy(right)
    ||| left is Punct && (right is Punct || right is Greater)
    ||| (left is CloseBrace || left is CloseBracket) && (is_wordy(right) || right is Hash)
    ||| right is OpenBrace && (is_wordy(left) || left is CloseParen || left is Greater || left
        is CloseBracket)
}

/// What stands between two tokens of these kinds where tokens are joined.
pub open spec fn gap(left: TokenKind, right: TokenKind) -> Seq<char> {
    if is_spaced(left, right) {
        seq![' ']
    } else {
        Seq::empty()
    }
}

/// The tokens from `first` to `last` joined: their characters in order, with
/// one space or nothing between two of them as their kinds say. White space
/// and comments between the tokens leave no trace.
pub open spec fn joined(src: Source, first: int, last: int) -> Seq<char>
    decreases last - first,
{
    if last <= first {
        token_text(src, first)
    } else {
        joined(src, first, last - 1) + gap(src.tokens[last - 1].kind, src.tokens[last].kind)
            + token_text(src, last)
    }
}

/// The words that start an item.
pub open spec fn is_item_keyword(kind: TokenKind) -> bool {
    kind is Struct || kind is Enum || kind is Trait || kind is Impl || kind is Fn || kind is Mod
        || kind is Use
}

/// The tokens that may stand where the parser does not look closer.
pub open spec fn is_opaque(kind: TokenKind) -> bool {
    !is_item_keyword(kind) && !(kind is Unclosed)
}

/// The tokens that may stand in a type annotation.
pub open spec fn in_type(kind: TokenKind) -> bool {
    is_opaque(kind) && !(kind is OpenBrace) && !(kind is CloseBrace) && !(kind is Hash) && !(kind is Pub)
        && !(kind is Colon)
}

/// Whether the token at `pos` is a name that follows a name directly, which
/// no type annotation holds.
pub open spec fn second_name(tokens: Seq<Token>, pos: int) -> bool {
    kind_at(tokens, pos) == Some(TokenKind::Ident) && kind_at(tokens, pos - 1) == Some(
        TokenKind::Ident,
    )
}

/// Whether the token makes a declaration under these options.
pub open spec fn declares(kind: TokenKind, options: ParseOptions) -> bool {
    kind is Struct || kind is Enum || kind is Trait || kind is Impl || kind is Fn || kind is Mod
        || (kind is Use && options.keep_imports)
}

/// The fault for the token at `pos` where another was expected. Where the text
/// ends inside a block, the block is at fault.
pub open spec fn unexpected(
    tokens: Seq<Token>,
    open: Option<usize>,
    pos: int,
    in_signature: bool,
) -> Fault {
    if pos >= tokens.len() && open is Some {
        Fault::UnterminatedBlock(open->0)
    } else if in_signature {
        Fault::MalformedSignature(pos as usize)
    } else {
        Fault::UnknownConstruct(pos as usize)
    }
}

/// The position after the brace that closes the block opened by the token
/// `open`, scanning from `pos` with `depth` braces open inside the block.
pub open spec fn block_end(tokens: Seq<Token>, open: usize, pos: int, depth: nat) -> Result<
    int,
    Fault,
>
    decreases tokens.len() - pos,
{
    if !(0 <= pos < tokens.len()) {
        Err(Fault::UnterminatedBlock(open))
    } else if !is_opaque(tokens[pos].kind) {
        Err(Fault::UnknownConstruct(pos as usize))
    } else if tokens[pos].kind is OpenBrace {
        block_end(tokens, open, pos + 1, depth + 1)
    } else if tokens[pos].kind is CloseBrace {
        if depth == 0 {
            Ok(pos + 1)
        } else {
            block_end(tokens, open, pos + 1, (depth - 1) as nat)
        }
    } else {
        block_end(tokens, open, pos + 1, depth)
    }
}

/// The position of the bracket that closes an attribute, scanning from `pos`
/// with `depth` brackets open inside the attribute.
pub open spec fn attribute_end(
    tokens: Seq<Token>,
    open: Option<usize>,
    pos: int,
    depth: nat,
) -> Result<int, Fault>
    decreases tokens.len() - pos,
{
    if !(0 <= pos < tokens.len()) {
        Err(unexpected(tokens, open, pos, false))
    } else if !is_opaque(tokens[pos].kind) {
        Err(Fault::UnknownConstruct(pos as usize))
    } else if tokens[pos].kind is OpenBracket {
        attribute_end(tokens, open, pos + 1, depth + 1)
    } else if tokens[pos].kind is CloseBracket {
        if depth == 0 {
            Ok(pos)
        } else {
            attribute_end(tokens, open, pos + 1, (depth - 1) as nat)
        }
    } else {
        attribute_end(tokens, open, pos + 1, depth)
    }
}

/// The attribute that starts with the `#` at `pos`: its contents, which must
/// not be empty, joined.
pub open spec fn attribute(src: Source, open: Option<usize>, pos: int) -> Step<Seq<char>> {
    if kind_at(src.tokens, pos + 1) != Some(TokenKind::OpenBracket) {
        Step::Fail(unexpected(src.tokens, open, pos + 1, false))
    } else {
        match attribute_end(src.tokens, open, pos + 2, 0) {
            Err(fault) => Step::Fail(fault),
            Ok(close) => if close == pos + 2 {
                Step::Fail(Fault::UnknownConstruct(close as usize))
            } else {
                Step::Done(joined(src, pos + 2, close - 1), close + 1)
            },
        }
    }
}

/// The attributes from `pos` on, after those in `found`.
pub open spec fn attributes(src: Source, open: Option<usize>, pos: int, found: Seq<Seq<char>>) -> Step<
    Seq<Seq<char>>,
>
    decreases src.tokens.len() - pos,
{
    if kind_at(src.tokens, pos) == Some(TokenKind::Hash) {
        match attribute(src, open, pos) {
            Step::Fail(fault) => Step::Fail(fault),
            Step::Done(tag, next) => {
                proof {
                    lemma_attribute_end_bounds(src.tokens, open, pos + 2, 0);
                }
                attributes(src, open, next, found.push(tag))
            },
        }
    } else {
        Step::Done(found, pos)
    }
}

/// Where the type annotation that starts at `pos` ends, and how many of its
/// brackets are still open there. It ends before the first token that cannot
/// stand in a type, before a name that follows a name and, outside all
/// brackets, before a comma, a semicolon or a closing bracket.
pub open spec fn type_end(tokens: Seq<Token>, pos: int, depth: nat) -> (int, nat)
    decreases tokens.len() - pos,
{
    if !(0 <= pos < tokens.len()) || !in_type(tokens[pos].kind) || second_name(tokens, pos) {
        (pos, depth)
    } else {
        let kind = tokens[pos].kind;
        if kind is Less || kind is OpenParen || kind is OpenBracket {
            type_end(tokens, pos + 1, depth + 1)
        } else if kind is Greater || kind is CloseParen || kind is CloseBracket {
            if depth == 0 {
                (pos, depth)
            } else {
                type_end(tokens, pos + 1, (depth - 1) as nat)
            }
        } else if (kind is Comma || kind is Semi) && depth == 0 {
            (pos, depth)
        } else {
            type_end(tokens, pos + 1, depth)
        }
    }
}

/// The type annotation that starts at `pos`: not empty, with its brackets
/// closed, and its tokens joined.
pub open spec fn annotation(src: Source, open: Option<usize>, pos: int, in_signature: bool) -> Step<
    Seq<char>,
> {
    let (end, depth) = type_end(src.tokens, pos, 0);
    if end == pos || depth != 0 {
        Step::Fail(unexpected(src.tokens, open, end, in_signature))
    } else {
        Step::Done(joined(src, pos, end - 1), end)
    }
}

/// The fields of a structured type from `pos` on, after those in `found`, up
/// to the brace that closes the type.
pub open spec fn fields(src: Source, open: Option<usize>, pos: int, found: Seq<DescriptorView>) -> Step<
    Seq<DescriptorView>,
>
    decreases src.tokens.len() - pos,
{
    if kind_at(src.tokens, pos) == Some(TokenKind::CloseBrace) {
        Step::Done(found, pos + 1)
    } else if kind_at(src.tokens, pos) != Some(TokenKind::Ident) {
        Step::Fail(unexpected(src.tokens, open, pos, false))
    } else if kind_at(src.tokens, pos + 1) != Some(TokenKind::Colon) {
        Step::Fail(unexpected(src.tokens, open, pos + 1, false))
    } else {
        match annotation(src, open, pos + 2, false) {
            Step::Fail(fault) => Step::Fail(fault),
            Step::Done(text, end) => {
                let field = DescriptorView { name: token_text(src, pos), annotation: text };
                proof {
                    lemma_type_end_bounds(src.tokens, pos + 2, 0);
                }
                if kind_at(src.tokens, end) == Some(TokenKind::Comma) {
                    fields(src, open, end + 1, found.push(field))
                } else if kind_at(src.tokens, end) == Some(TokenKind::CloseBrace) {
                    Step::Done(found.push(field), end + 1)
                } else {
                    Step::Fail(unexpected(src.tokens, open, end, false))
                }
            },
        }
    }
}

/// The variants of an enumeration from `pos` on, after those in `found`, up
/// to the brace that closes the enumeration.
pub open spec fn variants(src: Source, open: Option<usize>, pos: int, found: Seq<DescriptorView>) -> Step<
    Seq<DescriptorView>,
>
    decreases src.tokens.len() - pos,
{
    if kind_at(src.tokens, pos) == Some(TokenKind::CloseBrace) {
        Step::Done(found, pos + 1)
    } else if kind_at(src.tokens, pos) != Some(TokenKind::Ident) {
        Step::Fail(unexpected(src.tokens, open, pos, false))
    } else {
        let variant = DescriptorView { name: token_text(src, pos), annotation: Seq::empty() };
        if kind_at(src.tokens, pos + 1) == Some(TokenKind::Comma) {
            variants(src, open, pos + 2, found.push(variant))
        } else if kind_at(src.tokens, pos + 1) == Some(TokenKind::CloseBrace) {
            Step::Done(found.push(variant), pos + 2)
        } else {
            Step::Fail(unexpected(src.tokens, open, pos + 1, false))
        }
    }
}

/// The position after the receiver that starts at `pos`, if one does: `self`,
/// `&self`, `mut self` or `&mut self`.
pub open spec fn receiver_end(tokens: Seq<Token>, pos: int) -> Option<int> {
    let after_amp = if kind_at(tokens, pos) == Some(TokenKind::Amp) {
        pos + 1
    } else {
        pos
    };
    let after_mut = if kind_at(tokens, after_amp) == Some(TokenKind::Mut) {
        after_amp + 1
    } else {
        after_amp
    };
    if kind_at(tokens, after_mut) == Some(TokenKind::SelfValue) {
        Some(after_mut + 1)
    } else {
        None
    }
}

/// The parameter that starts at `pos`: a receiver, or a name, a colon and a
/// type annotation.
pub open spec fn parameter(src: Source, open: Option<usize>, pos: int) -> Step<DescriptorView> {
    match receiver_end(src.tokens, pos) {
        Some(end) => Step::Done(
            DescriptorView {
                name: token_text(src, end - 1),
                annotation: joined(src, pos, end - 1),
            },
            end,
        ),
        None => if kind_at(src.tokens, pos) != Some(TokenKind::Ident) {
            Step::Fail(unexpected(src.tokens, open, pos, true))
        } else if kind_at(src.tokens, pos + 1) != Some(TokenKind::Colon) {
            Step::Fail(unexpected(src.tokens, open, pos + 1, true))
        } else {
            match annotation(src, open, pos + 2, true) {
                Step::Fail(fault) => Step::Fail(fault),
                Step::Done(text, end) => Step::Done(
                    DescriptorView { name: token_text(src, pos), annotation: text },
                    end,
                ),
            }
        },
    }
}

/// The parameters of a function from `pos` on, after those in `found`, up to
/// the parenthesis that closes the list.
pub open spec fn parameters(
    src: Source,
    open: Option<usize>,
    pos: int,
    found: Seq<DescriptorView>,
) -> Step<Seq<DescriptorView>>
    decreases src.tokens.len() - pos,
{
    if kind_at(src.tokens, pos) == Some(TokenKind::CloseParen) {
        Step::Done(found, pos + 1)
    } else {
        match parameter(src, open, pos) {
            Step::Fail(fault) => Step::Fail(fault),
            Step::Done(param, end) => {
                proof {
                    lemma_type_end_bounds(src.tokens, pos + 2, 0);
                }
                if kind_at(src.tokens, end) == Some(TokenKind::Comma) {
                    parameters(src, open, end + 1, found.push(param))
                } else if kind_at(src.tokens, end) == Some(TokenKind::CloseParen) {
                    Step::Done(found.push(param), end + 1)
                } else {
                    Step::Fail(unexpected(src.tokens, open, end, true))
                }
            },
        }
    }
}

/// The signature of the function whose `fn` is the token at `pos`. The
/// position after it is that of the body's brace or of the semicolon.
pub open spec fn signature(src: Source, open: Option<usize>, pos: int) -> Step<Signature> {
    if kind_at(src.tokens, pos + 1) != Some(TokenKind::Ident) {
        Step::Fail(unexpected(src.tokens, open, pos + 1, true))
    } else if kind_at(src.tokens, pos + 2) != Some(TokenKind::OpenParen) {
        Step::Fail(unexpected(src.tokens, open, pos + 2, true))
    } else {
        match parameters(src, open, pos + 3, Seq::empty()) {
            Step::Fail(fault) => Step::Fail(fault),
            Step::Done(params, after) => if kind_at(src.tokens, after) == Some(TokenKind::Arrow) {
                match annotation(src, open, after + 1, true) {
                    Step::Fail(fault) => Step::Fail(fault),
                    Step::Done(text, end) => Step::Done(
                        Signature {
                            name: token_text(src, pos + 1),
                            parameters: params,
                            return_annotation: Some(text),
                        },
                        end,
                    ),
                }
            } else {
                Step::Done(
                    Signature {
                        name: token_text(src, pos + 1),
                        parameters: params,
                        return_annotation: None,
                    },
                    after,
                )
            },
        }
    }
}

/// The kind of a function with these tags.
pub open spec fn function_kind(tags: Seq<Seq<char>>) -> DeclKind {
    if tags.contains("test"@) {
        DeclKind::TestCase
    } else {
        DeclKind::Function
    }
}

/// The function whose `fn` is the token at `pos`. In a contract a semicolon
/// follows the signature; elsewhere a body does, which is passed over.
pub open spec fn function(
    src: Source,
    scope: Scope,
    open: Option<usize>,
    pos: int,
    tags: Seq<Seq<char>>,
    visibility: Visibility,
) -> Step<Declaration> {
    match signature(src, open, pos) {
        Step::Fail(fault) => Step::Fail(fault),
        Step::Done(sig, end) => {
            let node = Declaration {
                kind: function_kind(tags),
                name: sig.name,
                visibility,
                tags,
                members: sig.parameters,
                return_annotation: sig.return_annotation,
                contract: None,
                children: Seq::empty(),
            };
            if scope is Contract {
                if kind_at(src.tokens, end) == Some(TokenKind::Semi) {
                    Step::Done(node, end + 1)
                } else {
                    Step::Fail(unexpected(src.tokens, open, end, true))
                }
            } else if kind_at(src.tokens, end) != Some(TokenKind::OpenBrace) {
                Step::Fail(unexpected(src.tokens, open, end, true))
            } else {
                match block_end(src.tokens, end as usize, end + 1, 0) {
                    Err(fault) => Step::Fail(fault),
                    Ok(next) => Step::Done(node, next),
                }
            }
        },
    }
}

/// The position of the semicolon that closes the import whose path is scanned
/// from `pos`.
pub open spec fn import_end(tokens: Seq<Token>, open: Option<usize>, pos: int) -> Result<int, Fault>
    decreases tokens.len() - pos,
{
    if !(0 <= pos < tokens.len()) {
        Err(unexpected(tokens, open, pos, false))
    } else if !is_opaque(tokens[pos].kind) {
        Err(Fault::UnknownConstruct(pos as usize))
    } else if tokens[pos].kind is Semi {
        Ok(pos)
    } else {
        import_end(tokens, open, pos + 1)
    }
}

/// The import whose `use` is the token at `pos`: its path, which must not be
/// empty, becomes the name of the declaration, its tokens joined.
pub open spec fn import(
    src: Source,
    open: Option<usize>,
    pos: int,
    tags: Seq<Seq<char>>,
    visibility: Visibility,
) -> Step<Declaration> {
    match import_end(src.tokens, open, pos + 1) {
        Err(fault) => Step::Fail(fault),
        Ok(semi) => if semi == pos + 1 {
            Step::Fail(Fault::UnknownConstruct(semi as usize))
        } else {
            Step::Done(
                Declaration {
                    kind: DeclKind::Import,
                    name: joined(src, pos + 1, semi - 1),
                    visibility,
                    tags,
                    members: Seq::empty(),
                    return_annotation: None,
                    contract: None,
                    children: Seq::empty(),
                },
                semi + 1,
            )
        },
    }
}

/// The structured type (`is_enum` false) or enumeration (`is_enum` true) whose
/// keyword is the token at `pos`.
pub open spec fn data_type(
    src: Source,
    open: Option<usize>,
    pos: int,
    is_enum: bool,
    tags: Seq<Seq<char>>,
    visibility: Visibility,
) -> Step<Declaration> {
    if kind_at(src.tokens, pos + 1) != Some(TokenKind::Ident) {
        Step::Fail(unexpected(src.tokens, open, pos + 1, false))
    } else if kind_at(src.tokens, pos + 2) != Some(TokenKind::OpenBrace) {
        Step::Fail(unexpected(src.tokens, open, pos + 2, false))
    } else {
        let inner = Some((pos + 2) as usize);
        let members = if is_enum {
            variants(src, inner, pos + 3, Seq::empty())
        } else {
            fields(src, inner, pos + 3, Seq::empty())
        };
        match members {
            Step::Fail(fault) => Step::Fail(fault),
            Step::Done(found, next) => Step::Done(
                Declaration {
                    kind: if is_enum {
                        DeclKind::Enumeration
                    } else {
                        DeclKind::StructuredType
                    },
                    name: token_text(src, pos + 1),
                    visibility,
                    tags,
                    members: found,
                    return_annotation: None,
                    contract: None,
                    children: Seq::empty(),
                },
                next,
            ),
        }
    }
}

/// The name of a container and the contract that it implements, if any.
pub struct Head {
    pub name: Seq<char>,
    pub contract: Option<Seq<char>>,
}

/// The head of the container whose keyword (`trait`, `impl` or `mod`) is the
/// token at `pos`. The position after it is that of the opening brace.
pub open spec fn head(src: Source, open: Option<usize>, pos: int) -> Step<Head> {
    if kind_at(src.tokens, pos + 1) != Some(TokenKind::Ident) {
        Step::Fail(unexpected(src.tokens, open, pos + 1, false))
    } else if kind_at(src.tokens, pos) == Some(TokenKind::Impl) && kind_at(src.tokens, pos + 2)
        == Some(TokenKind::For) {
        if kind_at(src.tokens, pos + 3) != Some(TokenKind::Ident) {
            Step::Fail(unexpected(src.tokens, open, pos + 3, false))
        } else if kind_at(src.tokens, pos + 4) != Some(TokenKind::OpenBrace) {
            Step::Fail(unexpected(src.tokens, open, pos + 4, false))
        } else {
            Step::Done(
                Head { name: token_text(src, pos + 3), contract: Some(token_text(src, pos + 1)) },
                pos + 4,
            )
        }
    } else if kind_at(src.tokens, pos + 2) != Some(TokenKind::OpenBrace) {
        Step::Fail(unexpected(src.tokens, open, pos + 2, false))
    } else {
        Step::Done(Head { name: token_text(src, pos + 1), contract: None }, pos + 2)
    }
}

/// The scope inside the container that this keyword starts.
pub open spec fn inner_scope(keyword: TokenKind) -> Scope {
    if keyword is Trait {
        Scope::Contract
    } else if keyword is Impl {
        Scope::Implementation
    } else {
        Scope::Namespace
    }
}

/// The kind of the container that this keyword starts.
pub open spec fn container_kind(keyword: TokenKind) -> DeclKind {
    if keyword is Trait {
        DeclKind::Contract
    } else if keyword is Impl {
        DeclKind::Implementation
    } else {
        DeclKind::Namespace
    }
}

/// Whether items other than functions may stand in the scope.
pub open spec fn holds_all_items(scope: Scope) -> bool {
    scope is File || scope is Namespace
}

/// `found` with the declaration of one more item, if the item made one.
pub open spec fn with_item(found: Seq<Declaration>, item: Option<Declaration>) -> Seq<Declaration> {
    match item {
        Some(node) => found.push(node),
        None => found,
    }
}

/// The items of a scope from `pos` on, after the declarations in `found`: up
/// to the end of the text in a file, up to the closing brace elsewhere.
pub open spec fn items(
    src: Source,
    options: ParseOptions,
    scope: Scope,
    open: Option<usize>,
    pos: int,
    found: Seq<Declaration>,
) -> Step<Seq<Declaration>>
    decreases src.tokens.len() - pos, 2int,
{
    if !(0 <= pos < src.tokens.len()) {
        if scope is File {
            Step::Done(found, pos)
        } else {
            Step::Fail(unexpected(src.tokens, open, pos, false))
        }
    } else if src.tokens[pos].kind is CloseBrace {
        if scope is File {
            Step::Fail(Fault::UnknownConstruct(pos as usize))
        } else {
            Step::Done(found, pos + 1)
        }
    } else {
        match item(src, options, scope, open, pos) {
            Step::Fail(fault) => Step::Fail(fault),
            Step::Done(made, next) => if pos < next <= src.tokens.len() {
                items(src, options, scope, open, next, with_item(found, made))
            } else {
                // An item is never empty: see `lemma_item_advances`.
                Step::Fail(Fault::UnknownConstruct(pos as usize))
            },
        }
    }
}

/// The item that starts at `pos`: its attributes, its visibility and what it
/// declares.
pub open spec fn item(
    src: Source,
    options: ParseOptions,
    scope: Scope,
    open: Option<usize>,
    pos: int,
) -> Step<Option<Declaration>>
    decreases src.tokens.len() - pos, 1int,
{
    match attributes(src, open, pos, Seq::empty()) {
        Step::Fail(fault) => Step::Fail(fault),
        Step::Done(tags, after) => {
            proof {
                lemma_attributes_bounds(src, open, pos, Seq::empty());
            }
            if kind_at(src.tokens, after) == Some(TokenKind::Pub) {
                declaration(src, options, scope, open, after + 1, tags, Visibility::Public)
            } else {
                declaration(src, options, scope, open, after, tags, Visibility::Private)
            }
        },
    }
}

/// What the keyword at `pos` declares, given the tags and the visibility
/// written before it.
pub open spec fn declaration(
    src: Source,
    options: ParseOptions,
    scope: Scope,
    open: Option<usize>,
    pos: int,
    tags: Seq<Seq<char>>,
    visibility: Visibility,
) -> Step<Option<Declaration>>
    decreases src.tokens.len() - pos, 0int,
{
    match kind_at(src.tokens, pos) {
        Some(TokenKind::Fn) => match function(src, scope, open, pos, tags, visibility) {
            Step::Fail(fault) => Step::Fail(fault),
            Step::Done(node, next) => Step::Done(Some(node), next),
        },
        Some(keyword) => if !holds_all_items(scope) || !is_item_keyword(keyword) {
            Step::Fail(unexpected(src.tokens, open, pos, false))
        } else if keyword is Use {
            match import(src, open, pos, tags, visibility) {
                Step::Fail(fault) => Step::Fail(fault),
                Step::Done(node, next) => Step::Done(
                    if options.keep_imports {
                        Some(node)
                    } else {
                        None
                    },
                    next,
                ),
            }
        } else if keyword is Struct || keyword is Enum {
            match data_type(src, open, pos, keyword is Enum, tags, visibility) {
                Step::Fail(fault) => Step::Fail(fault),
                Step::Done(node, next) => Step::Done(Some(node), next),
            }
        } else {
            match head(src, open, pos) {
                Step::Fail(fault) => Step::Fail(fault),
                Step::Done(named, brace) => match items(
                    src,
                    options,
                    inner_scope(keyword),
                    Some(brace as usize),
                    brace + 1,
                    Seq::empty(),
                ) {
                    Step::Fail(fault) => Step::Fail(fault),
                    Step::Done(children, next) => Step::Done(
                        Some(
                            Declaration {
                                kind: container_kind(keyword),
                                name: named.name,
                                visibility,
                                tags,
                                members: Seq::empty(),
                                return_annotation: None,
                                contract: named.contract,
                                children,
                            },
                        ),
                        next,
                    ),
                },
            }
        },
        None => Step::Fail(unexpected(src.tokens, open, pos, false)),
    }
}

/// The declarations of a token sequence.
pub open spec fn declarations(src: Source, options: ParseOptions) -> Result<Seq<Declaration>, Fault> {
    match items(src, options, Scope::File, None, 0, Seq::empty()) {
        Step::Done(found, _) => Ok(found),
        Step::Fail(fault) => Err(fault),
    }
}

pub proof fn lemma_attribute_end_bounds(tokens: Seq<Token>, open: Option<usize>, pos: int, depth: nat)
    requires
        0 <= pos,
    ensures
        attribute_end(tokens, open, pos, depth) matches Ok(close) ==> pos <= close < tokens.len(),
    decreases tokens.len() - pos,
{
    if pos < tokens.len() && is_opaque(tokens[pos].kind) {
        if tokens[pos].kind is OpenBracket {
            lemma_attribute_end_bounds(tokens, open, pos + 1, depth + 1);
        } else if tokens[pos].kind is CloseBracket {
            if depth > 0 {
                lemma_attribute_end_bounds(tokens, open, pos + 1, (depth - 1) as nat);
            }
        } else {
            lemma_attribute_end_bounds(tokens, open, pos + 1, depth);
        }
    }
}

pub proof fn lemma_attributes_bounds(src: Source, open: Option<usize>, pos: int, found: Seq<Seq<char>>)
    ensures
        attributes(src, open, pos, found) matches Step::Done(_, after) ==> pos <= after && (after
            <= src.tokens.len() || after == pos),
    decreases src.tokens.len() - pos,
{
    if kind_at(src.tokens, pos) == Some(TokenKind::Hash) {
        lemma_attribute_end_bounds(src.tokens, open, pos + 2, 0);
        match attribute(src, open, pos) {
            Step::Fail(_) => {},
            Step::Done(tag, next) => {
                lemma_attributes_bounds(src, open, next, found.push(tag));
            },
        }
    }
}

pub proof fn lemma_type_end_bounds(tokens: Seq<Token>, pos: int, depth: nat)
    requires
        0 <= pos,
    ensures
        pos <= type_end(tokens, pos, depth).0,
        type_end(tokens, pos, depth).0 <= tokens.len() || type_end(tokens, pos, depth).0 == pos,
    decreases tokens.len() - pos,
{
    if pos < tokens.len() && in_type(tokens[pos].kind) && !second_name(tokens, pos) {
        let kind = tokens[pos].kind;
        if kind is Less || kind is OpenParen || kind is OpenBracket {
            lemma_type_end_bounds(tokens, pos + 1, depth + 1);
        } else if kind is Greater || kind is CloseParen || kind is CloseBracket {
            if depth > 0 {
                lemma_type_end_bounds(tokens, pos + 1, (depth - 1) as nat);
            }
        } else if (kind is Comma || kind is Semi) && depth == 0 {
        } else {
            lemma_type_end_bounds(tokens, pos + 1, depth);
        }
    }
}

} // verus!
