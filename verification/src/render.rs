//! Rendering: the text of a tree of declarations, and which trees can be
//! read back from their text.
//!
//! A tree is rendered token by token: its keywords, its names and the tokens
//! of the texts that it records, joined as the grammar joins tokens. The body
//! of a function, which no tree holds, is rendered as `{}`.

use crate::grammar::{
    attribute_end, function_kind, holds_all_items, import_end, receiver_end, type_end,
    ParseOptions, Scope, Source,
};
use crate::node::{
    descriptors_view, forest_view, lemma_forest_view_len, node_view, option_view, strings_view,
    DeclKind, Declaration, DeclarationNode, Descriptor, DescriptorView, Visibility,
};
use crate::parser::{lex, spaced, token_string};
use crate::spelling::{all_alone, join_all, lexeme_at, lexemes, stands_alone, Lexeme};
use crate::token::{tokens_of, Token, TokenKind};
use vstd::prelude::*;
use vstd::string::*;

verus! {

/// How a keyword or a mark is written.
pub open spec fn fixed_text(kind: TokenKind) -> Seq<char> {
    match kind {
        TokenKind::Struct => "struct"@,
        TokenKind::Enum => "enum"@,
        TokenKind::Trait => "trait"@,
        TokenKind::Impl => "impl"@,
        TokenKind::Fn => "fn"@,
        TokenKind::Mod => "mod"@,
        TokenKind::Use => "use"@,
        TokenKind::Pub => "pub"@,
        TokenKind::For => "for"@,
        TokenKind::OpenBrace => "{"@,
        TokenKind::CloseBrace => "}"@,
        TokenKind::OpenParen => "("@,
        TokenKind::CloseParen => ")"@,
        TokenKind::OpenBracket => "["@,
        TokenKind::CloseBracket => "]"@,
        TokenKind::Comma => ","@,
        TokenKind::Semi => ";"@,
        TokenKind::Colon => ":"@,
        TokenKind::Hash => "#"@,
        TokenKind::Arrow => "->"@,
        _ => Seq::empty(),
    }
}

/// Whether the kind is that of a keyword or a mark that rendering writes.
pub open spec fn is_fixed(kind: TokenKind) -> bool {
    kind is Struct || kind is Enum || kind is Trait || kind is Impl || kind is Fn || kind is Mod
        || kind is Use || kind is Pub || kind is For || kind is OpenBrace || kind is CloseBrace
        || kind is OpenParen || kind is CloseParen || kind is OpenBracket || kind is CloseBracket
        || kind is Comma || kind is Semi || kind is Colon || kind is Hash || kind is Arrow
}

/// The keyword or mark of this kind.
pub open spec fn fixed(kind: TokenKind) -> Lexeme {
    Lexeme { kind, text: fixed_text(kind) }
}

/// The tokens of a recorded text.
pub open spec fn spell_text(text: Seq<char>) -> Seq<Lexeme> {
    lexemes(Source { text, tokens: tokens_of(text) })
}

/// A field: name, colon, annotation, comma.
pub open spec fn spell_field(member: DescriptorView) -> Seq<Lexeme> {
    spell_text(member.name) + seq![fixed(TokenKind::Colon)] + spell_text(member.annotation)
        + seq![fixed(TokenKind::Comma)]
}

/// Whether the descriptor is the receiver of a method.
pub open spec fn is_receiver(member: DescriptorView) -> bool {
    member.name == "self"@
}

/// A field of a structured type, a variant of an enumeration (name, comma) or
/// a parameter of a function (a receiver as it is annotated, then a comma;
/// any other as a field).
pub open spec fn spell_member(member: DescriptorView, kind: DeclKind) -> Seq<Lexeme> {
    if kind is StructuredType {
        spell_field(member)
    } else if kind is Enumeration {
        spell_text(member.name) + seq![fixed(TokenKind::Comma)]
    } else if is_receiver(member) {
        spell_text(member.annotation) + seq![fixed(TokenKind::Comma)]
    } else {
        spell_field(member)
    }
}

pub open spec fn spell_members(members: Seq<DescriptorView>, kind: DeclKind) -> Seq<Lexeme>
    decreases members.len(),
{
    if members.len() == 0 {
        Seq::empty()
    } else {
        spell_member(members[0], kind) + spell_members(members.drop_first(), kind)
    }
}

/// An attribute: `#[`, the tokens of the tag, `]`.
pub open spec fn spell_tag(tag: Seq<char>) -> Seq<Lexeme> {
    seq![fixed(TokenKind::Hash), fixed(TokenKind::OpenBracket)] + spell_text(tag) + seq![
        fixed(TokenKind::CloseBracket),
    ]
}

pub open spec fn spell_tags(tags: Seq<Seq<char>>) -> Seq<Lexeme>
    decreases tags.len(),
{
    if tags.len() == 0 {
        Seq::empty()
    } else {
        spell_tag(tags[0]) + spell_tags(tags.drop_first())
    }
}

/// `pub` for what is public, nothing for what is not.
pub open spec fn spell_visibility(visibility: Visibility) -> Seq<Lexeme> {
    if visibility is Public {
        seq![fixed(TokenKind::Pub)]
    } else {
        Seq::empty()
    }
}

/// `->` and the annotation, where there is one.
pub open spec fn spell_return(annotation: Option<Seq<char>>) -> Seq<Lexeme> {
    match annotation {
        Some(text) => seq![fixed(TokenKind::Arrow)] + spell_text(text),
        None => Seq::empty(),
    }
}

/// The contract and `for`, where there is one.
pub open spec fn spell_contract(contract: Option<Seq<char>>) -> Seq<Lexeme> {
    match contract {
        Some(name) => spell_text(name) + seq![fixed(TokenKind::For)],
        None => Seq::empty(),
    }
}

/// The keyword that starts a declaration of this kind.
pub open spec fn keyword_of(kind: DeclKind) -> TokenKind {
    match kind {
        DeclKind::StructuredType => TokenKind::Struct,
        DeclKind::Enumeration => TokenKind::Enum,
        DeclKind::Contract => TokenKind::Trait,
        DeclKind::Implementation => TokenKind::Impl,
        DeclKind::Function => TokenKind::Fn,
        DeclKind::Namespace => TokenKind::Mod,
        DeclKind::TestCase => TokenKind::Fn,
        DeclKind::Import => TokenKind::Use,
    }
}

/// Whether declarations of this kind hold further declarations.
pub open spec fn is_container(kind: DeclKind) -> bool {
    kind is Contract || kind is Implementation || kind is Namespace
}

/// The tokens of a declaration from its keyword on. `in_contract` says
/// whether it stands in a contract, where a function ends in `;`.
pub open spec fn spell_declaration(node: Declaration, in_contract: bool) -> Seq<Lexeme>
    decreases node, 0int,
{
    let keyword = seq![fixed(keyword_of(node.kind))];
    if node.kind is Import {
        keyword + spell_text(node.name) + seq![fixed(TokenKind::Semi)]
    } else if node.kind is StructuredType || node.kind is Enumeration {
        keyword + spell_text(node.name) + seq![fixed(TokenKind::OpenBrace)] + spell_members(
            node.members,
            node.kind,
        ) + seq![fixed(TokenKind::CloseBrace)]
    } else if node.kind is Function || node.kind is TestCase {
        keyword + spell_text(node.name) + seq![fixed(TokenKind::OpenParen)] + spell_members(
            node.members,
            node.kind,
        ) + seq![fixed(TokenKind::CloseParen)] + spell_return(node.return_annotation) + (
        if in_contract {
            seq![fixed(TokenKind::Semi)]
        } else {
            seq![fixed(TokenKind::OpenBrace), fixed(TokenKind::CloseBrace)]
        })
    } else {
        keyword + (if node.kind is Implementation {
            spell_contract(node.contract)
        } else {
            Seq::empty()
        }) + spell_text(node.name) + seq![fixed(TokenKind::OpenBrace)] + spell_forest(
            node.children,
            node.kind is Contract,
        ) + seq![fixed(TokenKind::CloseBrace)]
    }
}

/// The tokens of a declaration: its attributes, its visibility, and the
/// declaration from its keyword on.
pub open spec fn spell_node(node: Declaration, in_contract: bool) -> Seq<Lexeme>
    decreases node, 1int,
{
    spell_tags(node.tags) + spell_visibility(node.visibility) + spell_declaration(
        node,
        in_contract,
    )
}

/// The tokens of a sequence of declarations.
pub open spec fn spell_forest(nodes: Seq<Declaration>, in_contract: bool) -> Seq<Lexeme>
    decreases nodes, 2int,
{
    if nodes.len() == 0 {
        Seq::empty()
    } else {
        spell_node(nodes[0], in_contract) + spell_forest(nodes.drop_first(), in_contract)
    }
}

/// The text of a sequence of declarations.
pub open spec fn rendered(nodes: Seq<Declaration>) -> Seq<char> {
    join_all(spell_forest(nodes, false))
}

/// A token that closes what is scanned; where it stands does not matter.
pub open spec fn closer(kind: TokenKind) -> Token {
    Token { kind, start: 0, end: 0 }
}

/// Whether a recorded text is a join of tokens: its tokens stand alone, and
/// joined they are the text again.
pub open spec fn is_text(text: Seq<char>) -> bool {
    &&& text.len() <= usize::MAX
    &&& spell_text(text).len() > 0
    &&& all_alone(spell_text(text))
    &&& join_all(spell_text(text)) == text
}

/// Whether a text is a name: one token, of the kind `Ident`.
pub open spec fn is_name(text: Seq<char>) -> bool {
    text.len() <= usize::MAX && stands_alone(Lexeme { kind: TokenKind::Ident, text })
}

/// Whether a text is a type annotation: a join of tokens that the grammar
/// reads as one annotation, to their end.
pub open spec fn is_annotation(text: Seq<char>) -> bool {
    is_text(text) && type_end(tokens_of(text), 0, 0) == (tokens_of(text).len() as int, 0nat)
}

/// Whether a text is the contents of an attribute: a join of tokens that the
/// grammar reads up to the closing bracket after them.
pub open spec fn is_tag(text: Seq<char>) -> bool {
    is_text(text) && attribute_end(
        tokens_of(text).push(closer(TokenKind::CloseBracket)),
        None,
        0,
        0,
    ) == Ok::<int, crate::grammar::Fault>(tokens_of(text).len() as int)
}

/// Whether a text is the path of an import: a join of tokens that the
/// grammar reads up to the semicolon after them.
pub open spec fn is_path(text: Seq<char>) -> bool {
    is_text(text) && import_end(tokens_of(text).push(closer(TokenKind::Semi)), None, 0) == Ok::<
        int,
        crate::grammar::Fault,
    >(tokens_of(text).len() as int)
}

/// Whether a descriptor is what the grammar makes of a member of a
/// declaration of this kind.
pub open spec fn is_member(member: DescriptorView, kind: DeclKind) -> bool {
    if kind is StructuredType {
        is_name(member.name) && is_annotation(member.annotation)
    } else if kind is Enumeration {
        is_name(member.name) && member.annotation.len() == 0
    } else if is_receiver(member) {
        is_text(member.annotation) && receiver_end(tokens_of(member.annotation), 0) == Some(
            tokens_of(member.annotation).len() as int,
        )
    } else {
        is_name(member.name) && is_annotation(member.annotation)
    }
}

pub open spec fn are_members(members: Seq<DescriptorView>, kind: DeclKind) -> bool {
    forall|i: int| 0 <= i < members.len() ==> is_member(#[trigger] members[i], kind)
}

pub open spec fn are_tags(tags: Seq<Seq<char>>) -> bool {
    forall|i: int| 0 <= i < tags.len() ==> is_tag(#[trigger] tags[i])
}

/// The scope inside a container of this kind.
pub open spec fn scope_in(kind: DeclKind) -> Scope {
    match kind {
        DeclKind::Contract => Scope::Contract,
        DeclKind::Implementation => Scope::Implementation,
        _ => Scope::Namespace,
    }
}

/// Whether a declaration is one that the grammar makes in this scope under
/// these options: its kind may stand there, its texts are what the grammar
/// records, and it holds what its kind holds and nothing else.
pub open spec fn is_readable(node: Declaration, options: ParseOptions, scope: Scope) -> bool
    decreases node, 0int,
{
    &&& are_tags(node.tags)
    &&& node.kind is Function || node.kind is TestCase || holds_all_items(scope)
    &&& node.kind is Import ==> options.keep_imports
    &&& if node.kind is Import {
        is_path(node.name)
    } else {
        is_name(node.name)
    }
    &&& if node.kind is StructuredType || node.kind is Enumeration || node.kind is Function
        || node.kind is TestCase {
        are_members(node.members, node.kind)
    } else {
        node.members.len() == 0
    }
    &&& if node.kind is Function || node.kind is TestCase {
        &&& node.kind == function_kind(node.tags)
        &&& node.return_annotation matches Some(text) ==> is_annotation(text)
    } else {
        node.return_annotation is None
    }
    &&& if node.kind is Implementation {
        node.contract matches Some(name) ==> is_name(name)
    } else {
        node.contract is None
    }
    &&& if is_container(node.kind) {
        all_readable(node.children, options, scope_in(node.kind))
    } else {
        node.children.len() == 0
    }
}

/// Whether every declaration of the sequence is readable in this scope.
pub open spec fn all_readable(nodes: Seq<Declaration>, options: ParseOptions, scope: Scope) -> bool
    decreases nodes, 1int,
{
    nodes.len() == 0 || (is_readable(nodes[0], options, scope) && all_readable(
        nodes.drop_first(),
        options,
        scope,
    ))
}

/// A text that is being written token by token.
struct Writer {
    text: String,
    /// The kind of the token written last.
    last: Option<TokenKind>,
    written: Ghost<Seq<Lexeme>>,
}

impl Writer {
    /// The text is the join of what was written.
    closed spec fn wf(&self) -> bool {
        &&& self.text@ == join_all(self.written@)
        &&& self.last == (if self.written@.len() == 0 {
            None
        } else {
            Some(self.written@.last().kind)
        })
    }
}

/// Writes one token after what is written, with the gap that its kind and
/// the kind before it ask for.
fn put(w: &mut Writer, kind: TokenKind, text: &str)
    requires
        old(w).wf(),
    ensures
        final(w).wf(),
        final(w).written@ == old(w).written@.push(Lexeme { kind, text: text@ }),
{
    let ghost before = w.written@;
    let ghost after = before.push(Lexeme { kind, text: text@ });
    match w.last {
        Some(left) => {
            if spaced(left, kind) {
                proof {
                    reveal_strlit(" ");
                    assert(" "@ =~= seq![' ']);
                }
                w.text.append(" ");
            } else {
                assert(w.text@ + Seq::<char>::empty() =~= w.text@);
            }
            assert(after.drop_last() =~= before);
            assert(after[after.len() - 2] == before.last());
        },
        None => {
            assert(Seq::<char>::empty() + text@ =~= text@);
        },
    }
    w.text.append(text);
    w.last = Some(kind);
    w.written = Ghost(after);
}

/// How a keyword or a mark is written.
fn fixed_str(kind: TokenKind) -> (text: &'static str)
    ensures
        text@ == fixed_text(kind),
{
    match kind {
        TokenKind::Struct => "struct",
        TokenKind::Enum => "enum",
        TokenKind::Trait => "trait",
        TokenKind::Impl => "impl",
        TokenKind::Fn => "fn",
        TokenKind::Mod => "mod",
        TokenKind::Use => "use",
        TokenKind::Pub => "pub",
        TokenKind::For => "for",
        TokenKind::OpenBrace => "{",
        TokenKind::CloseBrace => "}",
        TokenKind::OpenParen => "(",
        TokenKind::CloseParen => ")",
        TokenKind::OpenBracket => "[",
        TokenKind::CloseBracket => "]",
        TokenKind::Comma => ",",
        TokenKind::Semi => ";",
        TokenKind::Colon => ":",
        TokenKind::Hash => "#",
        TokenKind::Arrow => "->",
        _ => {
            proof {
                reveal_strlit("");
            }
            ""
        },
    }
}

fn put_fixed(w: &mut Writer, kind: TokenKind)
    requires
        old(w).wf(),
    ensures
        final(w).wf(),
        final(w).written@ == old(w).written@ + seq![fixed(kind)],
{
    put(w, kind, fixed_str(kind));
    assert(old(w).written@.push(fixed(kind)) =~= old(w).written@ + seq![fixed(kind)]);
}

/// Writes the tokens of a recorded text.
fn put_text(w: &mut Writer, text: &str)
    requires
        old(w).wf(),
    ensures
        final(w).wf(),
        final(w).written@ == old(w).written@ + spell_text(text@),
{
    let lx = lex(text);
    let ghost words = spell_text(text@);
    let n = lx.tokens.len();
    let mut i: usize = 0;
    assert(old(w).written@ + words.take(0) =~= old(w).written@);
    while i < n
        invariant
            w.wf(),
            lx.fits(),
            n == lx.tokens@.len(),
            i <= n,
            words == lexemes(lx@),
            w.written@ == old(w).written@ + words.take(i as int),
        decreases n - i,
    {
        let spelling = token_string(&lx, i);
        put(w, lx.tokens[i].kind, spelling.as_str());
        proof {
            assert(words[i as int] == lexeme_at(lx@, i as int));
            assert(words.take(i + 1) =~= words.take(i as int).push(words[i as int]));
            assert((old(w).written@ + words.take(i as int)).push(words[i as int]) =~= old(
                w,
            ).written@ + words.take(i + 1));
        }
        i += 1;
    }
    assert(words.take(n as int) =~= words);
}

/// Whether a string is the word `self`.
fn is_self(name: &String) -> (yes: bool)
    ensures
        yes == (name@ == "self"@),
{
    let word = "self".to_owned();
    *name == word
}

fn put_member(w: &mut Writer, member: &Descriptor, kind: DeclKind)
    requires
        old(w).wf(),
    ensures
        final(w).wf(),
        final(w).written@ == old(w).written@ + spell_member(member@, kind),
{
    let ghost start = w.written@;
    let named = match kind {
        DeclKind::StructuredType => true,
        DeclKind::Enumeration => false,
        _ => !is_self(&member.name),
    };
    if named {
        put_text(w, member.name.as_str());
        put_fixed(w, TokenKind::Colon);
        put_text(w, member.annotation.as_str());
        put_fixed(w, TokenKind::Comma);
        assert(w.written@ =~= start + spell_field(member@));
    } else if kind == DeclKind::Enumeration {
        put_text(w, member.name.as_str());
        put_fixed(w, TokenKind::Comma);
        assert(w.written@ =~= start + spell_member(member@, kind));
    } else {
        put_text(w, member.annotation.as_str());
        put_fixed(w, TokenKind::Comma);
        assert(w.written@ =~= start + spell_member(member@, kind));
    }
}

fn put_members(w: &mut Writer, members: &Vec<Descriptor>, kind: DeclKind)
    requires
        old(w).wf(),
    ensures
        final(w).wf(),
        final(w).written@ == old(w).written@ + spell_members(descriptors_view(members@), kind),
{
    let ghost all = descriptors_view(members@);
    let mut i: usize = 0;
    assert(all.skip(0) =~= all);
    while i < members.len()
        invariant
            w.wf(),
            i <= members@.len(),
            all == descriptors_view(members@),
            w.written@ + spell_members(all.skip(i as int), kind) == old(w).written@
                + spell_members(all, kind),
        decreases members@.len() - i,
    {
        let ghost before = w.written@;
        put_member(w, &members[i], kind);
        proof {
            let rest = all.skip(i as int);
            assert(rest[0] == members@[i as int]@);
            assert(rest.drop_first() =~= all.skip(i + 1));
            assert(before + spell_member(rest[0], kind) + spell_members(all.skip(i + 1), kind)
                =~= before + spell_members(rest, kind));
        }
        i += 1;
    }
    assert(w.written@ + Seq::<Lexeme>::empty() =~= w.written@);
}

fn put_tags(w: &mut Writer, tags: &Vec<String>)
    requires
        old(w).wf(),
    ensures
        final(w).wf(),
        final(w).written@ == old(w).written@ + spell_tags(strings_view(tags@)),
{
    let ghost all = strings_view(tags@);
    let mut i: usize = 0;
    assert(all.skip(0) =~= all);
    while i < tags.len()
        invariant
            w.wf(),
            i <= tags@.len(),
            all == strings_view(tags@),
            w.written@ + spell_tags(all.skip(i as int)) == old(w).written@ + spell_tags(all),
        decreases tags@.len() - i,
    {
        let ghost before = w.written@;
        put_fixed(w, TokenKind::Hash);
        put_fixed(w, TokenKind::OpenBracket);
        put_text(w, tags[i].as_str());
        put_fixed(w, TokenKind::CloseBracket);
        proof {
            let rest = all.skip(i as int);
            assert(rest[0] == tags@[i as int]@);
            assert(rest.drop_first() =~= all.skip(i + 1));
            assert(w.written@ =~= before + spell_tag(rest[0]));
            assert(before + spell_tag(rest[0]) + spell_tags(all.skip(i + 1)) =~= before
                + spell_tags(rest));
        }
        i += 1;
    }
    assert(w.written@ + Seq::<Lexeme>::empty() =~= w.written@);
}

fn keyword_kind(kind: DeclKind) -> (keyword: TokenKind)
    ensures
        keyword == keyword_of(kind),
{
    match kind {
        DeclKind::StructuredType => TokenKind::Struct,
        DeclKind::Enumeration => TokenKind::Enum,
        DeclKind::Contract => TokenKind::Trait,
        DeclKind::Implementation => TokenKind::Impl,
        DeclKind::Function => TokenKind::Fn,
        DeclKind::Namespace => TokenKind::Mod,
        DeclKind::TestCase => TokenKind::Fn,
        DeclKind::Import => TokenKind::Use,
    }
}

fn put_import(w: &mut Writer, node: &DeclarationNode)
    requires
        old(w).wf(),
    ensures
        final(w).wf(),
        final(w).written@ == old(w).written@ + (seq![fixed(TokenKind::Use)] + spell_text(
            node@.name,
        ) + seq![fixed(TokenKind::Semi)]),
{
    let ghost start = w.written@;
    put_fixed(w, TokenKind::Use);
    put_text(w, node.name.as_str());
    put_fixed(w, TokenKind::Semi);
    assert(w.written@ =~= start + (seq![fixed(TokenKind::Use)] + spell_text(node@.name) + seq![
        fixed(TokenKind::Semi),
    ]));
}

fn put_data_type(w: &mut Writer, node: &DeclarationNode)
    requires
        old(w).wf(),
    ensures
        final(w).wf(),
        final(w).written@ == old(w).written@ + (seq![fixed(keyword_of(node@.kind))] + spell_text(
            node@.name,
        ) + seq![fixed(TokenKind::OpenBrace)] + spell_members(node@.members, node@.kind) + seq![
            fixed(TokenKind::CloseBrace),
        ]),
{
    let ghost start = w.written@;
    put_fixed(w, keyword_kind(node.kind));
    put_text(w, node.name.as_str());
    put_fixed(w, TokenKind::OpenBrace);
    put_members(w, &node.members, node.kind);
    put_fixed(w, TokenKind::CloseBrace);
    assert(w.written@ =~= start + (seq![fixed(keyword_of(node@.kind))] + spell_text(node@.name)
        + seq![fixed(TokenKind::OpenBrace)] + spell_members(node@.members, node@.kind) + seq![
        fixed(TokenKind::CloseBrace),
    ]));
}

fn put_return(w: &mut Writer, annotation: &Option<String>)
    requires
        old(w).wf(),
    ensures
        final(w).wf(),
        final(w).written@ == old(w).written@ + spell_return(option_view(*annotation)),
{
    let ghost start = w.written@;
    match annotation {
        Some(text) => {
            put_fixed(w, TokenKind::Arrow);
            put_text(w, text.as_str());
            assert(w.written@ =~= start + (seq![fixed(TokenKind::Arrow)] + spell_text(text@)));
        },
        None => {
            assert(w.written@ =~= start + Seq::<Lexeme>::empty());
        },
    }
}

fn put_function(w: &mut Writer, node: &DeclarationNode, in_contract: bool)
    requires
        old(w).wf(),
    ensures
        final(w).wf(),
        final(w).written@ == old(w).written@ + (seq![fixed(TokenKind::Fn)] + spell_text(
            node@.name,
        ) + seq![fixed(TokenKind::OpenParen)] + spell_members(node@.members, node@.kind) + seq![
            fixed(TokenKind::CloseParen),
        ] + spell_return(node@.return_annotation) + (if in_contract {
            seq![fixed(TokenKind::Semi)]
        } else {
            seq![fixed(TokenKind::OpenBrace), fixed(TokenKind::CloseBrace)]
        })),
{
    let ghost start = w.written@;
    put_fixed(w, TokenKind::Fn);
    put_text(w, node.name.as_str());
    put_fixed(w, TokenKind::OpenParen);
    put_members(w, &node.members, node.kind);
    put_fixed(w, TokenKind::CloseParen);
    put_return(w, &node.return_annotation);
    let ghost front = seq![fixed(TokenKind::Fn)] + spell_text(node@.name) + seq![
        fixed(TokenKind::OpenParen),
    ] + spell_members(node@.members, node@.kind) + seq![fixed(TokenKind::CloseParen)]
        + spell_return(node@.return_annotation);
    assert(w.written@ =~= start + front);
    if in_contract {
        put_fixed(w, TokenKind::Semi);
        assert(w.written@ =~= start + (front + seq![fixed(TokenKind::Semi)]));
    } else {
        put_fixed(w, TokenKind::OpenBrace);
        put_fixed(w, TokenKind::CloseBrace);
        assert(w.written@ =~= start + (front + seq![
            fixed(TokenKind::OpenBrace),
            fixed(TokenKind::CloseBrace),
        ]));
    }
}

fn put_contract(w: &mut Writer, node: &DeclarationNode)
    requires
        old(w).wf(),
    ensures
        final(w).wf(),
        final(w).written@ == old(w).written@ + (if node@.kind is Implementation {
            spell_contract(node@.contract)
        } else {
            Seq::empty()
        }),
{
    let ghost start = w.written@;
    if node.kind == DeclKind::Implementation {
        match &node.contract {
            Some(name) => {
                put_text(w, name.as_str());
                put_fixed(w, TokenKind::For);
                assert(w.written@ =~= start + (spell_text(name@) + seq![fixed(TokenKind::For)]));
            },
            None => {
                assert(w.written@ =~= start + Seq::<Lexeme>::empty());
            },
        }
    } else {
        assert(w.written@ =~= start + Seq::<Lexeme>::empty());
    }
}

fn put_container(w: &mut Writer, node: &DeclarationNode)
    requires
        old(w).wf(),
    ensures
        final(w).wf(),
        final(w).written@ == old(w).written@ + (seq![fixed(keyword_of(node@.kind))] + (
        if node@.kind is Implementation {
            spell_contract(node@.contract)
        } else {
            Seq::empty()
        }) + spell_text(node@.name) + seq![fixed(TokenKind::OpenBrace)] + spell_forest(
            node@.children,
            node@.kind is Contract,
        ) + seq![fixed(TokenKind::CloseBrace)]),
    decreases node, 0int,
{
    let ghost start = w.written@;
    put_fixed(w, keyword_kind(node.kind));
    put_contract(w, node);
    put_text(w, node.name.as_str());
    put_fixed(w, TokenKind::OpenBrace);
    put_forest(w, &node.children, node.kind == DeclKind::Contract);
    put_fixed(w, TokenKind::CloseBrace);
    assert(w.written@ =~= start + (seq![fixed(keyword_of(node@.kind))] + (
    if node@.kind is Implementation {
        spell_contract(node@.contract)
    } else {
        Seq::empty()
    }) + spell_text(node@.name) + seq![fixed(TokenKind::OpenBrace)] + spell_forest(
        node@.children,
        node@.kind is Contract,
    ) + seq![fixed(TokenKind::CloseBrace)]));
}

fn put_declaration(w: &mut Writer, node: &DeclarationNode, in_contract: bool)
    requires
        old(w).wf(),
    ensures
        final(w).wf(),
        final(w).written@ == old(w).written@ + spell_declaration(node@, in_contract),
    decreases node, 1int,
{
    match node.kind {
        DeclKind::Import => {
            put_import(w, node);
        },
        DeclKind::StructuredType | DeclKind::Enumeration => {
            put_data_type(w, node);
        },
        DeclKind::Function | DeclKind::TestCase => {
            put_function(w, node, in_contract);
        },
        _ => {
            put_container(w, node);
        },
    }
}

fn put_node(w: &mut Writer, node: &DeclarationNode, in_contract: bool)
    requires
        old(w).wf(),
    ensures
        final(w).wf(),
        final(w).written@ == old(w).written@ + spell_node(node@, in_contract),
    decreases node, 2int,
{
    let ghost start = w.written@;
    put_tags(w, &node.tags);
    if node.visibility == Visibility::Public {
        put_fixed(w, TokenKind::Pub);
    }
    assert(w.written@ =~= start + spell_tags(node@.tags) + spell_visibility(node@.visibility));
    put_declaration(w, node, in_contract);
    assert(w.written@ =~= start + spell_node(node@, in_contract));
}

fn put_forest(w: &mut Writer, nodes: &Vec<DeclarationNode>, in_contract: bool)
    requires
        old(w).wf(),
    ensures
        final(w).wf(),
        final(w).written@ == old(w).written@ + spell_forest(forest_view(nodes@), in_contract),
    decreases nodes, 3int,
{
    let ghost all = forest_view(nodes@);
    let mut i: usize = 0;
    proof {
        lemma_forest_view_len(nodes@);
        assert(all.skip(0) =~= all);
    }
    while i < nodes.len()
        invariant
            w.wf(),
            i <= nodes@.len(),
            all == forest_view(nodes@),
            all.len() == nodes@.len(),
            forall|k: int| 0 <= k < nodes@.len() ==> all[k] == node_view(#[trigger] nodes@[k]),
            w.written@ + spell_forest(all.skip(i as int), in_contract) == old(w).written@
                + spell_forest(all, in_contract),
        decreases nodes@.len() - i,
    {
        let ghost before = w.written@;
        put_node(w, &nodes[i], in_contract);
        proof {
            let rest = all.skip(i as int);
            assert(rest[0] == node_view(nodes@[i as int]));
            assert(rest.drop_first() =~= all.skip(i + 1));
            assert(before + spell_node(rest[0], in_contract) + spell_forest(
                all.skip(i + 1),
                in_contract,
            ) =~= before + spell_forest(rest, in_contract));
        }
        i += 1;
    }
    assert(w.written@ + Seq::<Lexeme>::empty() =~= w.written@);
}

/// Renders declarations as a text: every declaration with its attributes,
/// its visibility, its name and its members, the body of every function as
/// `{}`. The text of a tree that the parser made parses to that tree.
pub fn render(nodes: &Vec<DeclarationNode>) -> (text: String)
    ensures
        text@ == rendered(forest_view(nodes@)),
{
    let mut w = Writer { text: String::new(), last: None, written: Ghost(Seq::empty()) };
    put_forest(&mut w, nodes, false);
    assert(Seq::<Lexeme>::empty() + spell_forest(forest_view(nodes@), false) =~= spell_forest(
        forest_view(nodes@),
        false,
    ));
    w.text
}

} // verus!
