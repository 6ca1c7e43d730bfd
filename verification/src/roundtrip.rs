//! Reading back: why the text of a readable tree parses to that tree.

use crate::grammar::{
    annotation, attribute, attribute_end, attributes, data_type, declaration, declarations, fields,
    function, function_kind, head, holds_all_items, import, import_end, in_type, item, items,
    joined, kind_at, parameter, parameters, receiver_end, second_name, signature, token_text,
    type_end, variants, with_item, Fault, ParseOptions, Scope, Source, Step,
};
use crate::node::{DeclKind, Declaration, DescriptorView};
use crate::render::{
    all_readable, are_members, are_tags, closer, fixed, fixed_text, is_annotation, is_container,
    is_fixed, is_member, is_name, is_path, is_readable, is_receiver, is_tag, is_text, keyword_of,
    rendered, scope_in, spell_contract, spell_declaration, spell_field, spell_forest,
    spell_member, spell_members, spell_node, spell_return, spell_tag, spell_tags, spell_text,
    spell_visibility,
};
use crate::spelling::{
    all_alone, join_all, lemma_join_relexes, lexeme_at, lexemes, stands_alone, Lexeme,
};
use crate::token::{tokens_of, word_end, Token, TokenKind};
use vstd::prelude::*;

verus! {

/// Whether the tokens of `src` from `pos` on are the lexemes `words`.
pub open spec fn holds_at(src: Source, pos: int, words: Seq<Lexeme>) -> bool {
    &&& 0 <= pos
    &&& pos + words.len() <= src.tokens.len()
    &&& forall|j: int| 0 <= j < words.len() ==> lexeme_at(src, pos + j) == #[trigger] words[j]
}

pub proof fn lemma_holds_split(src: Source, pos: int, first: Seq<Lexeme>, second: Seq<Lexeme>)
    requires
        holds_at(src, pos, first + second),
    ensures
        holds_at(src, pos, first),
        holds_at(src, pos + first.len(), second),
{
    let both = first + second;
    assert forall|j: int| 0 <= j < first.len() implies lexeme_at(src, pos + j)
        == #[trigger] first[j] by {
        assert(both[j] == first[j]);
    }
    assert forall|j: int| 0 <= j < second.len() implies lexeme_at(src, pos + first.len() + j)
        == #[trigger] second[j] by {
        assert(both[first.len() + j] == second[j]);
    }
}

pub proof fn lemma_holds_one(src: Source, pos: int, word: Lexeme)
    requires
        holds_at(src, pos, seq![word]),
    ensures
        0 <= pos < src.tokens.len(),
        kind_at(src.tokens, pos) == Some(word.kind),
        token_text(src, pos) == word.text,
{
    assert(seq![word][0] == word);
    assert(lexeme_at(src, pos + 0) == word);
}

/// The grammar's join of the tokens `first..=last` is the join of their
/// lexemes.
pub proof fn lemma_joined_is_join(src: Source, first: int, last: int)
    requires
        0 <= first <= last < src.tokens.len(),
    ensures
        joined(src, first, last) == join_all(lexemes(src).subrange(first, last + 1)),
    decreases last - first,
{
    let words = lexemes(src).subrange(first, last + 1);
    assert(words.last() == lexeme_at(src, last));
    if first < last {
        lemma_joined_is_join(src, first, last - 1);
        assert(words.drop_last() =~= lexemes(src).subrange(first, last));
        assert(words[words.len() - 2] == lexeme_at(src, last - 1));
    } else {
        assert(words[0] == lexeme_at(src, first));
    }
}

/// The join of all the tokens of a source.
pub proof fn lemma_join_of_source(src: Source)
    requires
        src.tokens.len() > 0,
    ensures
        joined(src, 0, src.tokens.len() - 1) == join_all(lexemes(src)),
{
    lemma_joined_is_join(src, 0, src.tokens.len() - 1);
    assert(lexemes(src).subrange(0, src.tokens.len() as int) =~= lexemes(src));
}

/// The join of tokens depends on their lexemes alone.
pub proof fn lemma_joined_moves(a: Source, pa: int, b: Source, pb: int, n: int)
    requires
        n > 0,
        holds_at(b, pb, lexemes(a).subrange(pa, pa + n)),
        0 <= pa,
        pa + n <= a.tokens.len(),
    ensures
        joined(b, pb, pb + n - 1) == joined(a, pa, pa + n - 1),
{
    lemma_joined_is_join(a, pa, pa + n - 1);
    lemma_joined_is_join(b, pb, pb + n - 1);
    let wa = lexemes(a).subrange(pa, pa + n);
    let wb = lexemes(b).subrange(pb, pb + n);
    assert forall|j: int| 0 <= j < n implies wa[j] == wb[j] by {
        assert(lexeme_at(b, pb + j) == wa[j]);
    }
    assert(wa =~= wb);
}

/// Whether a type annotation ends before a token of this kind, or before the
/// end of the tokens, where no bracket is open.
pub open spec fn stops_type(kind: Option<TokenKind>) -> bool {
    match kind {
        None => true,
        Some(kind) => !in_type(kind) || kind is Comma || kind is Semi || kind is Greater
            || kind is CloseParen || kind is CloseBracket,
    }
}

/// Whether `n` tokens of `a` from `pa` on and of `b` from `pb` on have the
/// same kinds.
pub open spec fn kinds_match(a: Seq<Token>, pa: int, b: Seq<Token>, pb: int, n: int) -> bool {
    &&& 0 <= pa
    &&& pa + n <= a.len()
    &&& 0 <= pb
    &&& pb + n <= b.len()
    &&& forall|j: int| 0 <= j < n ==> #[trigger] a[pa + j].kind == b[pb + j].kind
}

pub proof fn lemma_type_moves(
    a: Seq<Token>,
    pa: int,
    b: Seq<Token>,
    pb: int,
    n: int,
    j: int,
    depth: nat,
)
    requires
        kinds_match(a, pa, b, pb, n),
        0 <= j <= n,
        type_end(a, pa + j, depth) == (pa + n, 0nat),
        j == 0 ==> kind_at(b, pb - 1) != Some(TokenKind::Ident),
        stops_type(kind_at(b, pb + n)),
    ensures
        type_end(b, pb + j, depth) == (pb + n, 0nat),
    decreases n - j,
{
    if j < n {
        assert(a[pa + j].kind == b[pb + j].kind);
        if j > 0 {
            assert(a[pa + (j - 1)].kind == b[pb + (j - 1)].kind);
        }
        let kind = a[pa + j].kind;
        assert(in_type(kind) && !second_name(a, pa + j));
        assert(!second_name(b, pb + j));
        if kind is Less || kind is OpenParen || kind is OpenBracket {
            lemma_type_moves(a, pa, b, pb, n, j + 1, depth + 1);
        } else if kind is Greater || kind is CloseParen || kind is CloseBracket {
            lemma_type_moves(a, pa, b, pb, n, j + 1, (depth - 1) as nat);
        } else {
            lemma_type_moves(a, pa, b, pb, n, j + 1, depth);
        }
    } else {
        crate::grammar::lemma_type_end_bounds(a, pa + n + 1, depth + 1);
        crate::grammar::lemma_type_end_bounds(a, pa + n + 1, depth);
        if depth > 0 {
            crate::grammar::lemma_type_end_bounds(a, pa + n + 1, (depth - 1) as nat);
        }
        assert(depth == 0);
    }
}

pub proof fn lemma_attribute_moves(
    a: Seq<Token>,
    pa: int,
    open_a: Option<usize>,
    b: Seq<Token>,
    pb: int,
    open_b: Option<usize>,
    n: int,
    j: int,
    depth: nat,
)
    requires
        kinds_match(a, pa, b, pb, n),
        0 <= j <= n,
        attribute_end(a, open_a, pa + j, depth) == Ok::<int, Fault>(pa + n),
        kind_at(b, pb + n) == Some(TokenKind::CloseBracket),
    ensures
        attribute_end(b, open_b, pb + j, depth) == Ok::<int, Fault>(pb + n),
    decreases n - j,
{
    if j < n {
        assert(a[pa + j].kind == b[pb + j].kind);
        let kind = a[pa + j].kind;
        if kind is OpenBracket {
            lemma_attribute_moves(a, pa, open_a, b, pb, open_b, n, j + 1, depth + 1);
        } else if kind is CloseBracket {
            lemma_attribute_moves(a, pa, open_a, b, pb, open_b, n, j + 1, (depth - 1) as nat);
        } else {
            lemma_attribute_moves(a, pa, open_a, b, pb, open_b, n, j + 1, depth);
        }
    } else {
        crate::grammar::lemma_attribute_end_bounds(a, open_a, pa + n + 1, depth + 1);
        crate::grammar::lemma_attribute_end_bounds(a, open_a, pa + n + 1, depth);
        if depth > 0 {
            crate::grammar::lemma_attribute_end_bounds(a, open_a, pa + n + 1, (depth - 1) as nat);
        }
        assert(depth == 0);
    }
}

pub proof fn lemma_import_moves(
    a: Seq<Token>,
    pa: int,
    open_a: Option<usize>,
    b: Seq<Token>,
    pb: int,
    open_b: Option<usize>,
    n: int,
    j: int,
)
    requires
        kinds_match(a, pa, b, pb, n),
        0 <= j <= n,
        import_end(a, open_a, pa + j) == Ok::<int, Fault>(pa + n),
        kind_at(b, pb + n) == Some(TokenKind::Semi),
    ensures
        import_end(b, open_b, pb + j) == Ok::<int, Fault>(pb + n),
    decreases n - j,
{
    if j < n {
        assert(a[pa + j].kind == b[pb + j].kind);
        lemma_import_moves(a, pa, open_a, b, pb, open_b, n, j + 1);
    }
}

/// Every keyword and mark that rendering writes stands alone.
pub proof fn lemma_fixed_alone(kind: TokenKind)
    requires
        is_fixed(kind),
    ensures
        stands_alone(fixed(kind)),
        fixed_text(kind).len() <= 6,
{
    reveal_strlit("struct");
    reveal_strlit("enum");
    reveal_strlit("trait");
    reveal_strlit("impl");
    reveal_strlit("fn");
    reveal_strlit("mod");
    reveal_strlit("use");
    reveal_strlit("pub");
    reveal_strlit("for");
    reveal_strlit("mut");
    reveal_strlit("dyn");
    reveal_strlit("self");
    reveal_strlit("{");
    reveal_strlit("}");
    reveal_strlit("(");
    reveal_strlit(")");
    reveal_strlit("[");
    reveal_strlit("]");
    reveal_strlit(",");
    reveal_strlit(";");
    reveal_strlit(":");
    reveal_strlit("#");
    reveal_strlit("->");
    reveal_with_fuel(word_end, 8);
    let w = fixed_text(kind);
    assert(w.subrange(0, w.len() as int) =~= w);
}

/// The source of a recorded text.
pub open spec fn alone(text: Seq<char>) -> Source {
    Source { text, tokens: tokens_of(text) }
}

/// Where the tokens of a recorded text stand in a source, they have the kinds
/// that they have in the text alone.
proof fn lemma_text_kinds(src: Source, pos: int, text: Seq<char>)
    requires
        holds_at(src, pos, spell_text(text)),
    ensures
        kinds_match(tokens_of(text), 0, src.tokens, pos, tokens_of(text).len() as int),
        spell_text(text).len() == tokens_of(text).len(),
{
    let a = tokens_of(text);
    assert forall|j: int| 0 <= j < a.len() implies #[trigger] a[0 + j].kind == src.tokens[pos
        + j].kind by {
        assert(lexeme_at(src, pos + j) == spell_text(text)[j]);
    }
}

/// Where the tokens of a recorded text stand in a source, their join is the
/// text.
proof fn lemma_text_joins(src: Source, pos: int, text: Seq<char>)
    requires
        is_text(text),
        holds_at(src, pos, spell_text(text)),
    ensures
        joined(src, pos, pos + spell_text(text).len() - 1) == text,
{
    let n = tokens_of(text).len() as int;
    assert(lexemes(alone(text)).subrange(0, 0 + n) =~= spell_text(text));
    lemma_joined_moves(alone(text), 0, src, pos, n);
    lemma_join_of_source(alone(text));
}

/// A name is one token, an `Ident`.
pub proof fn lemma_name_spelling(text: Seq<char>)
    requires
        is_name(text),
    ensures
        spell_text(text) == seq![Lexeme { kind: TokenKind::Ident, text }],
{
    let words = seq![Lexeme { kind: TokenKind::Ident, text }];
    assert(join_all(words) == text);
    lemma_join_relexes(words);
}

proof fn lemma_read_name(src: Source, pos: int, text: Seq<char>)
    requires
        is_name(text),
        holds_at(src, pos, spell_text(text)),
    ensures
        spell_text(text).len() == 1,
        kind_at(src.tokens, pos) == Some(TokenKind::Ident),
        token_text(src, pos) == text,
        text != "self"@,
{
    lemma_name_spelling(text);
    lemma_holds_one(src, pos, Lexeme { kind: TokenKind::Ident, text });
    if text == "self"@ {
        assert(text.subrange(0, text.len() as int) =~= text);
        crate::token::lemma_word_end_bounds(text, 1);
    }
}

proof fn lemma_read_annotation(
    src: Source,
    open: Option<usize>,
    pos: int,
    text: Seq<char>,
    in_signature: bool,
)
    requires
        is_annotation(text),
        holds_at(src, pos, spell_text(text)),
        kind_at(src.tokens, pos - 1) != Some(TokenKind::Ident),
        stops_type(kind_at(src.tokens, pos + spell_text(text).len())),
    ensures
        annotation(src, open, pos, in_signature) == Step::Done(
            text,
            pos + spell_text(text).len(),
        ),
{
    let n = tokens_of(text).len() as int;
    lemma_text_kinds(src, pos, text);
    lemma_type_moves(tokens_of(text), 0, src.tokens, pos, n, 0, 0);
    lemma_text_joins(src, pos, text);
}

proof fn lemma_read_tags(
    src: Source,
    open: Option<usize>,
    pos: int,
    tags: Seq<Seq<char>>,
    found: Seq<Seq<char>>,
)
    requires
        are_tags(tags),
        holds_at(src, pos, spell_tags(tags)),
        kind_at(src.tokens, pos + spell_tags(tags).len()) != Some(TokenKind::Hash),
    ensures
        attributes(src, open, pos, found) == Step::Done(found + tags, pos + spell_tags(tags).len()),
    decreases tags.len(),
{
    if tags.len() == 0 {
        assert(found + tags =~= found);
    } else {
        let tag = tags[0];
        let rest = tags.drop_first();
        assert(is_tag(tag));
        assert forall|i: int| 0 <= i < rest.len() implies is_tag(#[trigger] rest[i]) by {
            assert(rest[i] == tags[i + 1]);
        }
        let n = tokens_of(tag).len() as int;
        lemma_fixed_alone(TokenKind::Hash);
        lemma_holds_split(src, pos, spell_tag(tag), spell_tags(rest));
        let front = seq![fixed(TokenKind::Hash), fixed(TokenKind::OpenBracket)];
        lemma_holds_split(src, pos, front + spell_text(tag), seq![fixed(TokenKind::CloseBracket)]);
        lemma_holds_split(src, pos, front, spell_text(tag));
        assert(lexeme_at(src, pos + 0) == front[0]);
        assert(lexeme_at(src, pos + 1) == front[1]);
        lemma_holds_one(src, pos + 2 + n, fixed(TokenKind::CloseBracket));
        lemma_text_kinds(src, pos + 2, tag);
        let a = tokens_of(tag).push(closer(TokenKind::CloseBracket));
        assert forall|j: int| 0 <= j < n implies #[trigger] a[0 + j].kind == src.tokens[pos + 2
            + j].kind by {
            assert(a[0 + j] == tokens_of(tag)[0 + j]);
        }
        lemma_attribute_moves(a, 0, None, src.tokens, pos + 2, open, n, 0, 0);
        lemma_text_joins(src, pos + 2, tag);
        let next = pos + 2 + n + 1;
        assert(attribute(src, open, pos) == Step::Done(tag, next));
        lemma_read_tags(src, open, next, rest, found.push(tag));
        assert(found.push(tag) + rest =~= found + tags);
    }
}

/// The members of a sequence after the first are members too.
pub proof fn lemma_rest_are_members(members: Seq<DescriptorView>, kind: DeclKind)
    requires
        are_members(members, kind),
        members.len() > 0,
    ensures
        is_member(members[0], kind),
        are_members(members.drop_first(), kind),
{
    let rest = members.drop_first();
    assert forall|i: int| 0 <= i < rest.len() implies is_member(#[trigger] rest[i], kind) by {
        assert(rest[i] == members[i + 1]);
    }
}

/// A field where it stands in a source: name, colon, annotation, comma.
proof fn lemma_read_field(
    src: Source,
    open: Option<usize>,
    pos: int,
    member: DescriptorView,
    in_signature: bool,
)
    requires
        is_name(member.name),
        is_annotation(member.annotation),
        holds_at(src, pos, spell_field(member)),
    ensures
        kind_at(src.tokens, pos) == Some(TokenKind::Ident),
        token_text(src, pos) == member.name,
        member.name != "self"@,
        kind_at(src.tokens, pos + 1) == Some(TokenKind::Colon),
        annotation(src, open, pos + 2, in_signature) == Step::Done(
            member.annotation,
            pos + spell_field(member).len() - 1,
        ),
        kind_at(src.tokens, pos + spell_field(member).len() - 1) == Some(TokenKind::Comma),
        spell_field(member).len() >= 4,
{
    let name = spell_text(member.name);
    let text = spell_text(member.annotation);
    let colon = seq![fixed(TokenKind::Colon)];
    let comma = seq![fixed(TokenKind::Comma)];
    lemma_name_spelling(member.name);
    lemma_holds_split(src, pos, name + colon + text, comma);
    lemma_holds_split(src, pos, name + colon, text);
    lemma_holds_split(src, pos, name, colon);
    lemma_read_name(src, pos, member.name);
    lemma_holds_one(src, pos + 1, fixed(TokenKind::Colon));
    lemma_holds_one(src, pos + 2 + text.len(), fixed(TokenKind::Comma));
    lemma_read_annotation(src, open, pos + 2, member.annotation, in_signature);
}

proof fn lemma_read_fields(
    src: Source,
    open: Option<usize>,
    pos: int,
    members: Seq<DescriptorView>,
    found: Seq<DescriptorView>,
)
    requires
        are_members(members, DeclKind::StructuredType),
        holds_at(
            src,
            pos,
            spell_members(members, DeclKind::StructuredType) + seq![fixed(TokenKind::CloseBrace)],
        ),
    ensures
        fields(src, open, pos, found) == Step::Done(
            found + members,
            pos + spell_members(members, DeclKind::StructuredType).len() + 1,
        ),
    decreases members.len(),
{
    let kind = DeclKind::StructuredType;
    let close = seq![fixed(TokenKind::CloseBrace)];
    if members.len() == 0 {
        lemma_holds_split(src, pos, spell_members(members, kind), close);
        lemma_holds_one(src, pos, fixed(TokenKind::CloseBrace));
        assert(found + members =~= found);
    } else {
        let member = members[0];
        let rest = members.drop_first();
        lemma_rest_are_members(members, kind);
        assert(spell_members(members, kind) + close =~= spell_field(member) + (spell_members(
            rest,
            kind,
        ) + close));
        lemma_holds_split(src, pos, spell_field(member), spell_members(rest, kind) + close);
        lemma_read_field(src, open, pos, member, false);
        let next = pos + spell_field(member).len();
        lemma_read_fields(src, open, next, rest, found.push(member));
        assert(found.push(member) + rest =~= found + members);
    }
}

proof fn lemma_read_variants(
    src: Source,
    open: Option<usize>,
    pos: int,
    members: Seq<DescriptorView>,
    found: Seq<DescriptorView>,
)
    requires
        are_members(members, DeclKind::Enumeration),
        holds_at(
            src,
            pos,
            spell_members(members, DeclKind::Enumeration) + seq![fixed(TokenKind::CloseBrace)],
        ),
    ensures
        variants(src, open, pos, found) == Step::Done(
            found + members,
            pos + spell_members(members, DeclKind::Enumeration).len() + 1,
        ),
    decreases members.len(),
{
    let kind = DeclKind::Enumeration;
    let close = seq![fixed(TokenKind::CloseBrace)];
    if members.len() == 0 {
        lemma_holds_split(src, pos, spell_members(members, kind), close);
        lemma_holds_one(src, pos, fixed(TokenKind::CloseBrace));
        assert(found + members =~= found);
    } else {
        let member = members[0];
        let rest = members.drop_first();
        lemma_rest_are_members(members, kind);
        let comma = seq![fixed(TokenKind::Comma)];
        assert(spell_members(members, kind) + close =~= spell_member(member, kind) + (
        spell_members(rest, kind) + close));
        lemma_holds_split(src, pos, spell_member(member, kind), spell_members(rest, kind) + close);
        lemma_holds_split(src, pos, spell_text(member.name), comma);
        lemma_read_name(src, pos, member.name);
        lemma_holds_one(src, pos + 1, fixed(TokenKind::Comma));
        assert(member.annotation =~= Seq::<char>::empty());
        let variant = DescriptorView { name: token_text(src, pos), annotation: Seq::empty() };
        assert(variant == member);
        lemma_read_variants(src, open, pos + 2, rest, found.push(member));
        assert(found.push(member) + rest =~= found + members);
    }
}

/// The word `self` is the only spelling of its kind.
pub proof fn lemma_self_text(word: Lexeme)
    requires
        stands_alone(word),
        word.kind is SelfValue,
    ensures
        word.text == "self"@,
{
    let w = word.text;
    assert(w.subrange(0, w.len() as int) =~= w);
}

proof fn lemma_read_receiver(src: Source, pos: int, member: DescriptorView)
    requires
        is_text(member.annotation),
        receiver_end(tokens_of(member.annotation), 0) == Some(
            tokens_of(member.annotation).len() as int,
        ),
        holds_at(src, pos, spell_text(member.annotation)),
    ensures
        receiver_end(src.tokens, pos) == Some(pos + spell_text(member.annotation).len()),
        token_text(src, pos + spell_text(member.annotation).len() - 1) == "self"@,
        joined(src, pos, pos + spell_text(member.annotation).len() - 1) == member.annotation,
{
    let text = member.annotation;
    let a = tokens_of(text);
    let n = a.len() as int;
    lemma_text_kinds(src, pos, text);
    lemma_text_joins(src, pos, text);
    if n > 0 {
        assert(a[0int + 0int].kind == src.tokens[pos + 0].kind);
    }
    if n > 1 {
        assert(a[0int + 1int].kind == src.tokens[pos + 1].kind);
    }
    if n > 2 {
        assert(a[0int + 2int].kind == src.tokens[pos + 2].kind);
    }
    let last = spell_text(text)[n - 1];
    assert(stands_alone(last));
    assert(lexeme_at(src, pos + (n - 1)) == last);
    lemma_self_text(last);
}

proof fn lemma_read_receiver_parameter(
    src: Source,
    open: Option<usize>,
    pos: int,
    member: DescriptorView,
)
    requires
        is_receiver(member),
        is_text(member.annotation),
        receiver_end(tokens_of(member.annotation), 0) == Some(
            tokens_of(member.annotation).len() as int,
        ),
        holds_at(src, pos, spell_text(member.annotation) + seq![fixed(TokenKind::Comma)]),
    ensures
        parameter(src, open, pos) == Step::Done(member, pos + spell_text(member.annotation).len()),
        kind_at(src.tokens, pos + spell_text(member.annotation).len()) == Some(TokenKind::Comma),
        kind_at(src.tokens, pos) != Some(TokenKind::CloseParen),
{
    let text = spell_text(member.annotation);
    lemma_holds_split(src, pos, text, seq![fixed(TokenKind::Comma)]);
    lemma_read_receiver(src, pos, member);
    lemma_holds_one(src, pos + text.len(), fixed(TokenKind::Comma));
    let made = DescriptorView {
        name: token_text(src, pos + text.len() - 1),
        annotation: joined(src, pos, pos + text.len() - 1),
    };
    assert(made == member);
}

proof fn lemma_read_named_parameter(
    src: Source,
    open: Option<usize>,
    pos: int,
    member: DescriptorView,
)
    requires
        is_name(member.name),
        is_annotation(member.annotation),
        holds_at(src, pos, spell_field(member)),
    ensures
        parameter(src, open, pos) == Step::Done(member, pos + spell_field(member).len() - 1),
        kind_at(src.tokens, pos + spell_field(member).len() - 1) == Some(TokenKind::Comma),
        kind_at(src.tokens, pos) != Some(TokenKind::CloseParen),
{
    lemma_read_field(src, open, pos, member, true);
    assert(receiver_end(src.tokens, pos) is None);
    let made = DescriptorView { name: token_text(src, pos), annotation: member.annotation };
    assert(made == member);
}

/// One step of `parameters`: past a parameter and its comma.
proof fn lemma_parameters_step(
    src: Source,
    open: Option<usize>,
    pos: int,
    found: Seq<DescriptorView>,
    member: DescriptorView,
    end: int,
)
    requires
        kind_at(src.tokens, pos) != Some(TokenKind::CloseParen),
        parameter(src, open, pos) == Step::Done(member, end),
        kind_at(src.tokens, end) == Some(TokenKind::Comma),
    ensures
        parameters(src, open, pos, found) == parameters(src, open, end + 1, found.push(member)),
{
}

proof fn lemma_read_parameters(
    src: Source,
    open: Option<usize>,
    pos: int,
    members: Seq<DescriptorView>,
    kind: DeclKind,
    found: Seq<DescriptorView>,
)
    requires
        kind is Function || kind is TestCase,
        are_members(members, kind),
        holds_at(src, pos, spell_members(members, kind) + seq![fixed(TokenKind::CloseParen)]),
    ensures
        parameters(src, open, pos, found) == Step::Done(
            found + members,
            pos + spell_members(members, kind).len() + 1,
        ),
    decreases members.len(),
{
    let close = seq![fixed(TokenKind::CloseParen)];
    if members.len() == 0 {
        lemma_holds_split(src, pos, spell_members(members, kind), close);
        lemma_holds_one(src, pos, fixed(TokenKind::CloseParen));
        assert(found + members =~= found);
    } else {
        let member = members[0];
        let rest = members.drop_first();
        lemma_rest_are_members(members, kind);
        assert(spell_members(members, kind) + close =~= spell_member(member, kind) + (
        spell_members(rest, kind) + close));
        lemma_holds_split(src, pos, spell_member(member, kind), spell_members(rest, kind) + close);
        let next = pos + spell_member(member, kind).len();
        if is_receiver(member) {
            lemma_read_receiver_parameter(src, open, pos, member);
        } else {
            lemma_read_named_parameter(src, open, pos, member);
        }
        lemma_parameters_step(src, open, pos, found, member, next - 1);
        lemma_read_parameters(src, open, next, rest, kind, found.push(member));
        assert(found.push(member) + rest =~= found + members);
    }
}

/// What follows the signature of a function: `;` in a contract, `{}`
/// elsewhere.
pub open spec fn spell_end(in_contract: bool) -> Seq<Lexeme> {
    if in_contract {
        seq![fixed(TokenKind::Semi)]
    } else {
        seq![fixed(TokenKind::OpenBrace), fixed(TokenKind::CloseBrace)]
    }
}

/// The tokens of a signature: `fn`, the name, the parameters in
/// parentheses, and the return annotation.
pub open spec fn spell_signature(node: Declaration) -> Seq<Lexeme> {
    seq![fixed(TokenKind::Fn)] + spell_text(node.name) + seq![fixed(TokenKind::OpenParen)]
        + spell_members(node.members, node.kind) + seq![fixed(TokenKind::CloseParen)]
        + spell_return(node.return_annotation)
}

proof fn lemma_read_signature(src: Source, open: Option<usize>, pos: int, node: Declaration)
    requires
        node.kind is Function || node.kind is TestCase,
        is_name(node.name),
        are_members(node.members, node.kind),
        node.return_annotation matches Some(text) ==> is_annotation(text),
        holds_at(src, pos, spell_signature(node)),
        kind_at(src.tokens, pos + spell_signature(node).len()) == Some(TokenKind::Semi) || kind_at(
            src.tokens,
            pos + spell_signature(node).len(),
        ) == Some(TokenKind::OpenBrace),
    ensures
        signature(src, open, pos) == Step::Done(
            crate::grammar::Signature {
                name: node.name,
                parameters: node.members,
                return_annotation: node.return_annotation,
            },
            pos + spell_signature(node).len(),
        ),
{
    let keyword = seq![fixed(TokenKind::Fn)];
    let name = spell_text(node.name);
    let paren = seq![fixed(TokenKind::OpenParen)];
    let members = spell_members(node.members, node.kind);
    let close = seq![fixed(TokenKind::CloseParen)];
    let ret = spell_return(node.return_annotation);
    lemma_name_spelling(node.name);
    assert(spell_signature(node) =~= keyword + name + paren + (members + close) + ret);
    lemma_holds_split(src, pos, keyword + name + paren + (members + close), ret);
    lemma_holds_split(src, pos, keyword + name + paren, members + close);
    lemma_holds_split(src, pos, keyword + name, paren);
    lemma_holds_split(src, pos, keyword, name);
    lemma_read_name(src, pos + 1, node.name);
    lemma_holds_one(src, pos + 2, fixed(TokenKind::OpenParen));
    lemma_read_parameters(src, open, pos + 3, node.members, node.kind, Seq::empty());
    assert(Seq::<DescriptorView>::empty() + node.members =~= node.members);
    let after = pos + 3 + members.len() + 1;
    match node.return_annotation {
        Some(text) => {
            lemma_holds_split(src, after, seq![fixed(TokenKind::Arrow)], spell_text(text));
            lemma_holds_one(src, after, fixed(TokenKind::Arrow));
            lemma_read_annotation(src, open, after + 1, text, true);
        },
        None => {},
    }
}

proof fn lemma_read_function(
    src: Source,
    scope: Scope,
    open: Option<usize>,
    pos: int,
    node: Declaration,
)
    requires
        node.kind is Function || node.kind is TestCase,
        is_name(node.name),
        are_members(node.members, node.kind),
        node.return_annotation matches Some(text) ==> is_annotation(text),
        node.kind == function_kind(node.tags),
        node.contract is None,
        node.children.len() == 0,
        holds_at(src, pos, spell_signature(node) + spell_end(scope is Contract)),
    ensures
        function(src, scope, open, pos, node.tags, node.visibility) == Step::Done(
            node,
            pos + spell_signature(node).len() + spell_end(scope is Contract).len(),
        ),
{
    let end = spell_end(scope is Contract);
    lemma_holds_split(src, pos, spell_signature(node), end);
    let last = pos + spell_signature(node).len();
    assert(lexeme_at(src, last + 0) == end[0]);
    if !(scope is Contract) {
        assert(lexeme_at(src, last + 1) == end[1]);
    }
    lemma_read_signature(src, open, pos, node);
    let made = Declaration {
        kind: function_kind(node.tags),
        name: node.name,
        visibility: node.visibility,
        tags: node.tags,
        members: node.members,
        return_annotation: node.return_annotation,
        contract: None,
        children: Seq::empty(),
    };
    assert(node.children =~= Seq::<Declaration>::empty());
    assert(made == node);
    if !(scope is Contract) {
        reveal_with_fuel(crate::grammar::block_end, 2);
    }
}

proof fn lemma_read_import(src: Source, open: Option<usize>, pos: int, node: Declaration)
    requires
        node.kind is Import,
        is_path(node.name),
        node.members.len() == 0,
        node.return_annotation is None,
        node.contract is None,
        node.children.len() == 0,
        holds_at(
            src,
            pos,
            seq![fixed(TokenKind::Use)] + spell_text(node.name) + seq![fixed(TokenKind::Semi)],
        ),
    ensures
        import(src, open, pos, node.tags, node.visibility) == Step::Done(
            node,
            pos + spell_text(node.name).len() + 2,
        ),
{
    let path = spell_text(node.name);
    let n = tokens_of(node.name).len() as int;
    let keyword = seq![fixed(TokenKind::Use)];
    let semi = seq![fixed(TokenKind::Semi)];
    lemma_holds_split(src, pos, keyword + path, semi);
    lemma_holds_split(src, pos, keyword, path);
    lemma_holds_one(src, pos + 1 + n, fixed(TokenKind::Semi));
    lemma_text_kinds(src, pos + 1, node.name);
    let a = tokens_of(node.name).push(closer(TokenKind::Semi));
    assert forall|j: int| 0 <= j < n implies #[trigger] a[0 + j].kind == src.tokens[pos + 1
        + j].kind by {
        assert(a[0 + j] == tokens_of(node.name)[0 + j]);
    }
    lemma_import_moves(a, 0, None, src.tokens, pos + 1, open, n, 0);
    lemma_text_joins(src, pos + 1, node.name);
    let made = Declaration {
        kind: DeclKind::Import,
        name: node.name,
        visibility: node.visibility,
        tags: node.tags,
        members: Seq::empty(),
        return_annotation: None,
        contract: None,
        children: Seq::empty(),
    };
    assert(node.children =~= Seq::<Declaration>::empty());
    assert(node.members =~= Seq::<DescriptorView>::empty());
    assert(made == node);
}

proof fn lemma_read_data_type(src: Source, open: Option<usize>, pos: int, node: Declaration)
    requires
        node.kind is StructuredType || node.kind is Enumeration,
        is_name(node.name),
        are_members(node.members, node.kind),
        node.return_annotation is None,
        node.contract is None,
        node.children.len() == 0,
        holds_at(
            src,
            pos,
            seq![fixed(keyword_of(node.kind))] + spell_text(node.name) + seq![
                fixed(TokenKind::OpenBrace),
            ] + (spell_members(node.members, node.kind) + seq![fixed(TokenKind::CloseBrace)]),
        ),
    ensures
        data_type(src, open, pos, node.kind is Enumeration, node.tags, node.visibility)
            == Step::Done(node, pos + spell_members(node.members, node.kind).len() + 4),
{
    let keyword = seq![fixed(keyword_of(node.kind))];
    let name = spell_text(node.name);
    let brace = seq![fixed(TokenKind::OpenBrace)];
    let members = spell_members(node.members, node.kind);
    let close = seq![fixed(TokenKind::CloseBrace)];
    lemma_name_spelling(node.name);
    lemma_holds_split(src, pos, keyword + name + brace, members + close);
    lemma_holds_split(src, pos, keyword + name, brace);
    lemma_holds_split(src, pos, keyword, name);
    lemma_read_name(src, pos + 1, node.name);
    lemma_holds_one(src, pos + 2, fixed(TokenKind::OpenBrace));
    let inner = Some((pos + 2) as usize);
    if node.kind is Enumeration {
        lemma_read_variants(src, inner, pos + 3, node.members, Seq::empty());
    } else {
        lemma_read_fields(src, inner, pos + 3, node.members, Seq::empty());
    }
    assert(Seq::<DescriptorView>::empty() + node.members =~= node.members);
    let made = Declaration {
        kind: node.kind,
        name: node.name,
        visibility: node.visibility,
        tags: node.tags,
        members: node.members,
        return_annotation: None,
        contract: None,
        children: Seq::empty(),
    };
    assert(node.children =~= Seq::<Declaration>::empty());
    assert(made == node);
}

/// The tokens of the head of a container: its keyword, the contract and
/// `for` where it implements one, its name and the opening brace.
pub open spec fn spell_head(node: Declaration) -> Seq<Lexeme> {
    seq![fixed(keyword_of(node.kind))] + (if node.kind is Implementation {
        spell_contract(node.contract)
    } else {
        Seq::empty()
    }) + spell_text(node.name) + seq![fixed(TokenKind::OpenBrace)]
}

proof fn lemma_read_head(src: Source, open: Option<usize>, pos: int, node: Declaration)
    requires
        is_container(node.kind),
        is_name(node.name),
        if node.kind is Implementation {
            node.contract matches Some(name) ==> is_name(name)
        } else {
            node.contract is None
        },
        holds_at(src, pos, spell_head(node)),
    ensures
        head(src, open, pos) == Step::Done(
            crate::grammar::Head { name: node.name, contract: node.contract },
            pos + spell_head(node).len() - 1,
        ),
        kind_at(src.tokens, pos) == Some(keyword_of(node.kind)),
        spell_head(node).len() >= 3,
{
    let keyword = seq![fixed(keyword_of(node.kind))];
    let name = spell_text(node.name);
    let brace = seq![fixed(TokenKind::OpenBrace)];
    lemma_name_spelling(node.name);
    if node.kind is Implementation && node.contract is Some {
        let contract = node.contract->0;
        let first = spell_text(contract);
        let word = seq![fixed(TokenKind::For)];
        lemma_name_spelling(contract);
        assert(spell_head(node) =~= keyword + first + word + name + brace);
        lemma_holds_split(src, pos, keyword + first + word + name, brace);
        lemma_holds_split(src, pos, keyword + first + word, name);
        lemma_holds_split(src, pos, keyword + first, word);
        lemma_holds_split(src, pos, keyword, first);
        lemma_holds_one(src, pos, fixed(TokenKind::Impl));
        lemma_read_name(src, pos + 1, contract);
        lemma_holds_one(src, pos + 2, fixed(TokenKind::For));
        lemma_read_name(src, pos + 3, node.name);
        lemma_holds_one(src, pos + 4, fixed(TokenKind::OpenBrace));
    } else {
        assert(spell_head(node) =~= keyword + name + brace);
        lemma_holds_split(src, pos, keyword + name, brace);
        lemma_holds_split(src, pos, keyword, name);
        lemma_holds_one(src, pos, fixed(keyword_of(node.kind)));
        lemma_read_name(src, pos + 1, node.name);
        lemma_holds_one(src, pos + 2, fixed(TokenKind::OpenBrace));
    }
}

/// A declaration is spelled with at least one token, and the first is its
/// keyword.
proof fn lemma_declaration_starts(node: Declaration, in_contract: bool)
    ensures
        spell_declaration(node, in_contract).len() > 0,
        spell_declaration(node, in_contract)[0] == fixed(keyword_of(node.kind)),
{
}

/// That the items from `pos` on are `nodes`, read after `found`, up to `next`.
#[verifier::opaque]
pub open spec fn items_read(
    src: Source,
    options: ParseOptions,
    scope: Scope,
    open: Option<usize>,
    pos: int,
    nodes: Seq<Declaration>,
    found: Seq<Declaration>,
    next: int,
) -> bool {
    items(src, options, scope, open, pos, found) == Step::Done(found + nodes, next)
}

/// That the item at `pos` is `node` and ends before `next`.
#[verifier::opaque]
pub open spec fn item_read(
    src: Source,
    options: ParseOptions,
    scope: Scope,
    open: Option<usize>,
    pos: int,
    node: Declaration,
    next: int,
) -> bool {
    &&& item(src, options, scope, open, pos) == Step::Done(Some(node), next)
    &&& 0 <= pos < next <= src.tokens.len()
    &&& kind_at(src.tokens, pos) != Some(TokenKind::CloseBrace)
}

/// That the declaration whose keyword is at `pos` is `node` and ends before
/// `next`.
#[verifier::opaque]
pub open spec fn declaration_read(
    src: Source,
    options: ParseOptions,
    scope: Scope,
    open: Option<usize>,
    pos: int,
    node: Declaration,
    next: int,
) -> bool {
    declaration(src, options, scope, open, pos, node.tags, node.visibility) == Step::Done(
        Some(node),
        next,
    )
}

/// One step of `items`: past an item that made a declaration.
proof fn lemma_items_step(
    src: Source,
    options: ParseOptions,
    scope: Scope,
    open: Option<usize>,
    pos: int,
    nodes: Seq<Declaration>,
    found: Seq<Declaration>,
    next: int,
    end: int,
)
    requires
        nodes.len() > 0,
        item_read(src, options, scope, open, pos, nodes[0], next),
        items_read(src, options, scope, open, next, nodes.drop_first(), found.push(nodes[0]), end),
    ensures
        items_read(src, options, scope, open, pos, nodes, found, end),
{
    reveal(items_read);
    reveal(item_read);
    assert(with_item(found, Some(nodes[0])) == found.push(nodes[0]));
    assert(found.push(nodes[0]) + nodes.drop_first() =~= found + nodes);
}

/// The last step of `items`: at the end of the tokens or at the closing
/// brace.
proof fn lemma_items_end(
    src: Source,
    options: ParseOptions,
    scope: Scope,
    open: Option<usize>,
    pos: int,
    found: Seq<Declaration>,
)
    requires
        0 <= pos,
        if scope is File {
            pos == src.tokens.len()
        } else {
            kind_at(src.tokens, pos) == Some(TokenKind::CloseBrace)
        },
    ensures
        items_read(
            src,
            options,
            scope,
            open,
            pos,
            Seq::empty(),
            found,
            pos + (if scope is File {
                0int
            } else {
                1int
            }),
        ),
{
    reveal(items_read);
    assert(found + Seq::<Declaration>::empty() =~= found);
}

/// An item from its parts: its attributes, its visibility, its declaration.
proof fn lemma_item_from_parts(
    src: Source,
    options: ParseOptions,
    scope: Scope,
    open: Option<usize>,
    pos: int,
    node: Declaration,
    after: int,
    next: int,
)
    requires
        0 <= pos <= after,
        after < next <= src.tokens.len(),
        kind_at(src.tokens, pos) != Some(TokenKind::CloseBrace),
        attributes(src, open, pos, Seq::empty()) == Step::Done(node.tags, after),
        (kind_at(src.tokens, after) == Some(TokenKind::Pub)) == (node.visibility is Public),
        declaration_read(
            src,
            options,
            scope,
            open,
            if node.visibility is Public {
                after + 1
            } else {
                after
            },
            node,
            next,
        ),
    ensures
        item_read(src, options, scope, open, pos, node, next),
{
    reveal(item_read);
    reveal(declaration_read);
}

proof fn lemma_read_items(
    src: Source,
    options: ParseOptions,
    scope: Scope,
    open: Option<usize>,
    pos: int,
    nodes: Seq<Declaration>,
    found: Seq<Declaration>,
)
    requires
        all_readable(nodes, options, scope),
        holds_at(src, pos, spell_forest(nodes, scope is Contract)),
        if scope is File {
            pos + spell_forest(nodes, scope is Contract).len() == src.tokens.len()
        } else {
            kind_at(src.tokens, pos + spell_forest(nodes, scope is Contract).len()) == Some(
                TokenKind::CloseBrace,
            )
        },
    ensures
        items_read(
            src,
            options,
            scope,
            open,
            pos,
            nodes,
            found,
            pos + spell_forest(nodes, scope is Contract).len() + (if scope is File {
                0int
            } else {
                1int
            }),
        ),
    decreases nodes, 3int,
{
    if nodes.len() == 0 {
        lemma_items_end(src, options, scope, open, pos, found);
        assert(nodes =~= Seq::<Declaration>::empty());
    } else {
        let node = nodes[0];
        let rest = nodes.drop_first();
        let first = spell_node(node, scope is Contract);
        lemma_holds_split(src, pos, first, spell_forest(rest, scope is Contract));
        lemma_read_item(src, options, scope, open, pos, node);
        let next = pos + first.len();
        lemma_read_items(src, options, scope, open, next, rest, found.push(node));
        let end = pos + spell_forest(nodes, scope is Contract).len() + (if scope is File {
            0int
        } else {
            1int
        });
        lemma_items_step(src, options, scope, open, pos, nodes, found, next, end);
    }
}

proof fn lemma_read_item(
    src: Source,
    options: ParseOptions,
    scope: Scope,
    open: Option<usize>,
    pos: int,
    node: Declaration,
)
    requires
        is_readable(node, options, scope),
        holds_at(src, pos, spell_node(node, scope is Contract)),
    ensures
        item_read(
            src,
            options,
            scope,
            open,
            pos,
            node,
            pos + spell_node(node, scope is Contract).len(),
        ),
    decreases node, 2int,
{
    let tags = spell_tags(node.tags);
    let visibility = spell_visibility(node.visibility);
    let rest = spell_declaration(node, scope is Contract);
    lemma_declaration_starts(node, scope is Contract);
    lemma_holds_split(src, pos, tags + visibility, rest);
    lemma_holds_split(src, pos, tags, visibility);
    let after = pos + tags.len();
    let at = after + visibility.len();
    assert(lexeme_at(src, at + 0) == rest[0]);
    if node.visibility is Public {
        lemma_holds_one(src, after, fixed(TokenKind::Pub));
    }
    lemma_read_tags(src, open, pos, node.tags, Seq::empty());
    assert(Seq::<Seq<char>>::empty() + node.tags =~= node.tags);
    lemma_read_declaration(src, options, scope, open, at, node);
    if node.tags.len() > 0 {
        assert(lexeme_at(src, pos + 0) == (tags + visibility + rest)[0]);
        assert(spell_tag(node.tags[0])[0] == fixed(TokenKind::Hash));
        assert(tags[0] == fixed(TokenKind::Hash));
    }
    lemma_item_from_parts(src, options, scope, open, pos, node, after, at + rest.len());
}

proof fn lemma_declare_function(
    src: Source,
    options: ParseOptions,
    scope: Scope,
    open: Option<usize>,
    pos: int,
    node: Declaration,
)
    requires
        node.kind is Function || node.kind is TestCase,
        is_name(node.name),
        are_members(node.members, node.kind),
        node.return_annotation matches Some(text) ==> is_annotation(text),
        node.kind == function_kind(node.tags),
        node.contract is None,
        node.children.len() == 0,
        holds_at(src, pos, spell_signature(node) + spell_end(scope is Contract)),
    ensures
        declaration(src, options, scope, open, pos, node.tags, node.visibility) == Step::Done(
            Some(node),
            pos + spell_signature(node).len() + spell_end(scope is Contract).len(),
        ),
{
    lemma_holds_split(src, pos, spell_signature(node), spell_end(scope is Contract));
    assert(lexeme_at(src, pos + 0) == spell_signature(node)[0]);
    lemma_read_function(src, scope, open, pos, node);
}

proof fn lemma_declare_import(
    src: Source,
    options: ParseOptions,
    scope: Scope,
    open: Option<usize>,
    pos: int,
    node: Declaration,
)
    requires
        node.kind is Import,
        options.keep_imports,
        holds_all_items(scope),
        is_path(node.name),
        node.members.len() == 0,
        node.return_annotation is None,
        node.contract is None,
        node.children.len() == 0,
        holds_at(
            src,
            pos,
            seq![fixed(TokenKind::Use)] + spell_text(node.name) + seq![fixed(TokenKind::Semi)],
        ),
    ensures
        declaration(src, options, scope, open, pos, node.tags, node.visibility) == Step::Done(
            Some(node),
            pos + spell_text(node.name).len() + 2,
        ),
{
    let words = seq![fixed(TokenKind::Use)] + spell_text(node.name) + seq![
        fixed(TokenKind::Semi),
    ];
    assert(lexeme_at(src, pos + 0) == words[0]);
    lemma_read_import(src, open, pos, node);
}

proof fn lemma_declare_data_type(
    src: Source,
    options: ParseOptions,
    scope: Scope,
    open: Option<usize>,
    pos: int,
    node: Declaration,
)
    requires
        node.kind is StructuredType || node.kind is Enumeration,
        holds_all_items(scope),
        is_name(node.name),
        are_members(node.members, node.kind),
        node.return_annotation is None,
        node.contract is None,
        node.children.len() == 0,
        holds_at(
            src,
            pos,
            seq![fixed(keyword_of(node.kind))] + spell_text(node.name) + seq![
                fixed(TokenKind::OpenBrace),
            ] + (spell_members(node.members, node.kind) + seq![fixed(TokenKind::CloseBrace)]),
        ),
    ensures
        declaration(src, options, scope, open, pos, node.tags, node.visibility) == Step::Done(
            Some(node),
            pos + spell_members(node.members, node.kind).len() + 4,
        ),
{
    let words = seq![fixed(keyword_of(node.kind))] + spell_text(node.name) + seq![
        fixed(TokenKind::OpenBrace),
    ] + (spell_members(node.members, node.kind) + seq![fixed(TokenKind::CloseBrace)]);
    assert(lexeme_at(src, pos + 0) == words[0]);
    lemma_read_data_type(src, open, pos, node);
}

/// What a container is once its head and its children are read.
proof fn lemma_declare_container(
    src: Source,
    options: ParseOptions,
    scope: Scope,
    open: Option<usize>,
    pos: int,
    node: Declaration,
    brace: int,
    next: int,
)
    requires
        is_container(node.kind),
        holds_all_items(scope),
        node.members.len() == 0,
        node.return_annotation is None,
        kind_at(src.tokens, pos) == Some(keyword_of(node.kind)),
        head(src, open, pos) == Step::Done(
            crate::grammar::Head { name: node.name, contract: node.contract },
            brace,
        ),
        items(
            src,
            options,
            scope_in(node.kind),
            Some(brace as usize),
            brace + 1,
            Seq::empty(),
        ) == Step::Done(node.children, next),
    ensures
        declaration(src, options, scope, open, pos, node.tags, node.visibility) == Step::Done(
            Some(node),
            next,
        ),
{
    let made = Declaration {
        kind: node.kind,
        name: node.name,
        visibility: node.visibility,
        tags: node.tags,
        members: Seq::empty(),
        return_annotation: None,
        contract: node.contract,
        children: node.children,
    };
    assert(node.members =~= Seq::<DescriptorView>::empty());
    assert(made == node);
}

proof fn lemma_read_leaf(
    src: Source,
    options: ParseOptions,
    scope: Scope,
    open: Option<usize>,
    pos: int,
    node: Declaration,
)
    requires
        !is_container(node.kind),
        is_readable(node, options, scope),
        holds_at(src, pos, spell_declaration(node, scope is Contract)),
    ensures
        declaration_read(
            src,
            options,
            scope,
            open,
            pos,
            node,
            pos + spell_declaration(node, scope is Contract).len(),
        ),
{
    reveal(declaration_read);
    let whole = spell_declaration(node, scope is Contract);
    if node.kind is Function || node.kind is TestCase {
        assert(whole =~= spell_signature(node) + spell_end(scope is Contract));
        lemma_declare_function(src, options, scope, open, pos, node);
    } else if node.kind is Import {
        lemma_declare_import(src, options, scope, open, pos, node);
    } else {
        lemma_name_spelling(node.name);
        assert(whole =~= seq![fixed(keyword_of(node.kind))] + spell_text(node.name) + seq![
            fixed(TokenKind::OpenBrace),
        ] + (spell_members(node.members, node.kind) + seq![fixed(TokenKind::CloseBrace)]));
        lemma_declare_data_type(src, options, scope, open, pos, node);
    }
}

/// What a container is once its head and its children are read.
proof fn lemma_container_from_parts(
    src: Source,
    options: ParseOptions,
    scope: Scope,
    open: Option<usize>,
    pos: int,
    node: Declaration,
    brace: int,
    next: int,
)
    requires
        is_container(node.kind),
        holds_all_items(scope),
        node.members.len() == 0,
        node.return_annotation is None,
        kind_at(src.tokens, pos) == Some(keyword_of(node.kind)),
        head(src, open, pos) == Step::Done(
            crate::grammar::Head { name: node.name, contract: node.contract },
            brace,
        ),
        items_read(
            src,
            options,
            scope_in(node.kind),
            Some(brace as usize),
            brace + 1,
            node.children,
            Seq::empty(),
            next,
        ),
    ensures
        declaration_read(src, options, scope, open, pos, node, next),
{
    reveal(items_read);
    reveal(declaration_read);
    assert(Seq::<Declaration>::empty() + node.children =~= node.children);
    lemma_declare_container(src, options, scope, open, pos, node, brace, next);
}

proof fn lemma_read_container(
    src: Source,
    options: ParseOptions,
    scope: Scope,
    open: Option<usize>,
    pos: int,
    node: Declaration,
)
    requires
        is_container(node.kind),
        is_readable(node, options, scope),
        holds_at(src, pos, spell_declaration(node, scope is Contract)),
    ensures
        declaration_read(
            src,
            options,
            scope,
            open,
            pos,
            node,
            pos + spell_declaration(node, scope is Contract).len(),
        ),
    decreases node, 0int,
{
    let whole = spell_declaration(node, scope is Contract);
    let first = spell_head(node);
    let children = spell_forest(node.children, node.kind is Contract);
    let close = seq![fixed(TokenKind::CloseBrace)];
    assert(whole =~= first + children + close);
    lemma_holds_split(src, pos, first + children, close);
    lemma_holds_split(src, pos, first, children);
    lemma_read_head(src, open, pos, node);
    let brace = pos + first.len() - 1;
    lemma_holds_one(src, brace + 1 + children.len(), fixed(TokenKind::CloseBrace));
    let inner = scope_in(node.kind);
    assert((inner is Contract) == (node.kind is Contract));
    lemma_read_items(
        src,
        options,
        inner,
        Some(brace as usize),
        brace + 1,
        node.children,
        Seq::empty(),
    );
    lemma_container_from_parts(
        src,
        options,
        scope,
        open,
        pos,
        node,
        brace,
        brace + 1 + children.len() + 1,
    );
}

proof fn lemma_read_declaration(
    src: Source,
    options: ParseOptions,
    scope: Scope,
    open: Option<usize>,
    pos: int,
    node: Declaration,
)
    requires
        is_readable(node, options, scope),
        holds_at(src, pos, spell_declaration(node, scope is Contract)),
    ensures
        declaration_read(
            src,
            options,
            scope,
            open,
            pos,
            node,
            pos + spell_declaration(node, scope is Contract).len(),
        ),
    decreases node, 1int,
{
    if is_container(node.kind) {
        lemma_read_container(src, options, scope, open, pos, node);
    } else {
        lemma_read_leaf(src, options, scope, open, pos, node);
    }
}

proof fn lemma_alone_join(first: Seq<Lexeme>, second: Seq<Lexeme>)
    requires
        all_alone(first),
        all_alone(second),
    ensures
        all_alone(first + second),
{
    let both = first + second;
    assert forall|k: int| 0 <= k < both.len() implies stands_alone(#[trigger] both[k]) by {
        if k < first.len() {
            assert(both[k] == first[k]);
        } else {
            assert(both[k] == second[k - first.len()]);
        }
    }
}

proof fn lemma_alone_fixed(kind: TokenKind)
    requires
        is_fixed(kind),
    ensures
        all_alone(seq![fixed(kind)]),
{
    lemma_fixed_alone(kind);
}

proof fn lemma_alone_name(text: Seq<char>)
    requires
        is_name(text),
    ensures
        all_alone(spell_text(text)),
{
    lemma_name_spelling(text);
}

proof fn lemma_field_alone(member: DescriptorView)
    requires
        is_name(member.name),
        is_annotation(member.annotation),
    ensures
        all_alone(spell_field(member)),
{
    lemma_alone_name(member.name);
    lemma_alone_fixed(TokenKind::Colon);
    lemma_alone_fixed(TokenKind::Comma);
    let a = spell_text(member.name);
    let b = seq![fixed(TokenKind::Colon)];
    let c = spell_text(member.annotation);
    lemma_alone_join(a, b);
    lemma_alone_join(a + b, c);
    lemma_alone_join(a + b + c, seq![fixed(TokenKind::Comma)]);
}

proof fn lemma_members_alone(members: Seq<DescriptorView>, kind: DeclKind)
    requires
        are_members(members, kind),
    ensures
        all_alone(spell_members(members, kind)),
    decreases members.len(),
{
    if members.len() > 0 {
        let member = members[0];
        lemma_rest_are_members(members, kind);
        lemma_members_alone(members.drop_first(), kind);
        lemma_alone_fixed(TokenKind::Comma);
        if kind is StructuredType {
            lemma_field_alone(member);
        } else if kind is Enumeration {
            lemma_alone_name(member.name);
            lemma_alone_join(spell_text(member.name), seq![fixed(TokenKind::Comma)]);
        } else if is_receiver(member) {
            lemma_alone_join(spell_text(member.annotation), seq![fixed(TokenKind::Comma)]);
        } else {
            lemma_field_alone(member);
        }
        lemma_alone_join(spell_member(member, kind), spell_members(members.drop_first(), kind));
    }
}

proof fn lemma_tags_alone(tags: Seq<Seq<char>>)
    requires
        are_tags(tags),
    ensures
        all_alone(spell_tags(tags)),
    decreases tags.len(),
{
    if tags.len() > 0 {
        let tag = tags[0];
        let rest = tags.drop_first();
        assert(is_tag(tag));
        assert forall|i: int| 0 <= i < rest.len() implies is_tag(#[trigger] rest[i]) by {
            assert(rest[i] == tags[i + 1]);
        }
        lemma_tags_alone(rest);
        lemma_fixed_alone(TokenKind::Hash);
        lemma_fixed_alone(TokenKind::OpenBracket);
        lemma_alone_fixed(TokenKind::CloseBracket);
        let front = seq![fixed(TokenKind::Hash), fixed(TokenKind::OpenBracket)];
        assert(all_alone(front));
        lemma_alone_join(front, spell_text(tag));
        lemma_alone_join(front + spell_text(tag), seq![fixed(TokenKind::CloseBracket)]);
        lemma_alone_join(spell_tag(tag), spell_tags(rest));
    }
}

proof fn lemma_signature_alone(node: Declaration, in_contract: bool)
    requires
        node.kind is Function || node.kind is TestCase,
        is_name(node.name),
        are_members(node.members, node.kind),
        node.return_annotation matches Some(text) ==> is_annotation(text),
    ensures
        all_alone(spell_signature(node) + spell_end(in_contract)),
{
    lemma_alone_fixed(TokenKind::Fn);
    lemma_alone_name(node.name);
    lemma_alone_fixed(TokenKind::OpenParen);
    lemma_members_alone(node.members, node.kind);
    lemma_alone_fixed(TokenKind::CloseParen);
    lemma_alone_fixed(TokenKind::Arrow);
    lemma_alone_fixed(TokenKind::Semi);
    lemma_fixed_alone(TokenKind::OpenBrace);
    lemma_fixed_alone(TokenKind::CloseBrace);
    let a = seq![fixed(TokenKind::Fn)];
    let b = spell_text(node.name);
    let c = seq![fixed(TokenKind::OpenParen)];
    let d = spell_members(node.members, node.kind);
    let e = seq![fixed(TokenKind::CloseParen)];
    let f = spell_return(node.return_annotation);
    match node.return_annotation {
        Some(text) => {
            lemma_alone_join(seq![fixed(TokenKind::Arrow)], spell_text(text));
        },
        None => {},
    }
    assert(all_alone(spell_end(in_contract)));
    lemma_alone_join(a, b);
    lemma_alone_join(a + b, c);
    lemma_alone_join(a + b + c, d);
    lemma_alone_join(a + b + c + d, e);
    lemma_alone_join(a + b + c + d + e, f);
    lemma_alone_join(spell_signature(node), spell_end(in_contract));
}

proof fn lemma_head_alone(node: Declaration)
    requires
        is_container(node.kind),
        is_name(node.name),
        node.kind is Implementation ==> (node.contract matches Some(name) ==> is_name(name)),
    ensures
        all_alone(spell_head(node)),
{
    lemma_alone_fixed(keyword_of(node.kind));
    lemma_alone_name(node.name);
    lemma_alone_fixed(TokenKind::OpenBrace);
    lemma_alone_fixed(TokenKind::For);
    let a = seq![fixed(keyword_of(node.kind))];
    let b = if node.kind is Implementation {
        spell_contract(node.contract)
    } else {
        Seq::empty()
    };
    if node.kind is Implementation && node.contract is Some {
        lemma_alone_name(node.contract->0);
        lemma_alone_join(spell_text(node.contract->0), seq![fixed(TokenKind::For)]);
    }
    lemma_alone_join(a, b);
    lemma_alone_join(a + b, spell_text(node.name));
    lemma_alone_join(a + b + spell_text(node.name), seq![fixed(TokenKind::OpenBrace)]);
}

proof fn lemma_forest_alone(nodes: Seq<Declaration>, options: ParseOptions, scope: Scope)
    requires
        all_readable(nodes, options, scope),
    ensures
        all_alone(spell_forest(nodes, scope is Contract)),
    decreases nodes, 1int,
{
    if nodes.len() > 0 {
        lemma_node_alone(nodes[0], options, scope);
        lemma_forest_alone(nodes.drop_first(), options, scope);
        lemma_alone_join(
            spell_node(nodes[0], scope is Contract),
            spell_forest(nodes.drop_first(), scope is Contract),
        );
    }
}

proof fn lemma_node_alone(node: Declaration, options: ParseOptions, scope: Scope)
    requires
        is_readable(node, options, scope),
    ensures
        all_alone(spell_node(node, scope is Contract)),
    decreases node, 0int,
{
    let in_contract = scope is Contract;
    lemma_tags_alone(node.tags);
    lemma_alone_fixed(TokenKind::Pub);
    lemma_alone_join(spell_tags(node.tags), spell_visibility(node.visibility));
    let whole = spell_declaration(node, in_contract);
    if node.kind is Function || node.kind is TestCase {
        lemma_signature_alone(node, in_contract);
        assert(whole =~= spell_signature(node) + spell_end(in_contract));
    } else if node.kind is Import {
        lemma_alone_fixed(TokenKind::Use);
        lemma_alone_fixed(TokenKind::Semi);
        lemma_alone_join(seq![fixed(TokenKind::Use)], spell_text(node.name));
        lemma_alone_join(
            seq![fixed(TokenKind::Use)] + spell_text(node.name),
            seq![fixed(TokenKind::Semi)],
        );
    } else if node.kind is StructuredType || node.kind is Enumeration {
        lemma_alone_fixed(keyword_of(node.kind));
        lemma_alone_name(node.name);
        lemma_alone_fixed(TokenKind::OpenBrace);
        lemma_alone_fixed(TokenKind::CloseBrace);
        lemma_members_alone(node.members, node.kind);
        let a = seq![fixed(keyword_of(node.kind))];
        let b = spell_text(node.name);
        let c = seq![fixed(TokenKind::OpenBrace)];
        let d = spell_members(node.members, node.kind);
        lemma_alone_join(a, b);
        lemma_alone_join(a + b, c);
        lemma_alone_join(a + b + c, d);
        lemma_alone_join(a + b + c + d, seq![fixed(TokenKind::CloseBrace)]);
    } else {
        lemma_head_alone(node);
        lemma_alone_fixed(TokenKind::CloseBrace);
        let inner = scope_in(node.kind);
        assert((inner is Contract) == (node.kind is Contract));
        lemma_forest_alone(node.children, options, inner);
        let children = spell_forest(node.children, node.kind is Contract);
        assert(whole =~= spell_head(node) + children + seq![fixed(TokenKind::CloseBrace)]);
        lemma_alone_join(spell_head(node), children);
        lemma_alone_join(spell_head(node) + children, seq![fixed(TokenKind::CloseBrace)]);
    }
    lemma_alone_join(spell_tags(node.tags) + spell_visibility(node.visibility), whole);
}

/// The text of a readable tree parses to that tree.
pub proof fn lemma_readable_round_trip(nodes: Seq<Declaration>, options: ParseOptions)
    requires
        all_readable(nodes, options, Scope::File),
        rendered(nodes).len() <= usize::MAX,
    ensures
        declarations(alone(rendered(nodes)), options) == Ok::<Seq<Declaration>, Fault>(nodes),
{
    let words = spell_forest(nodes, false);
    let src = alone(rendered(nodes));
    lemma_forest_alone(nodes, options, Scope::File);
    lemma_join_relexes(words);
    assert(lexemes(src) == words);
    assert(src.tokens.len() == words.len());
    assert forall|j: int| 0 <= j < words.len() implies lexeme_at(src, 0 + j)
        == #[trigger] words[j] by {
        assert(lexemes(src)[j] == lexeme_at(src, j));
    }
    lemma_read_items(src, options, Scope::File, None, 0, nodes, Seq::empty());
    reveal(items_read);
    assert(Seq::<Declaration>::empty() + nodes =~= nodes);
}

} // verus!
