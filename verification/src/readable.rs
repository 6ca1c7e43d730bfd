//! What the parser makes can be read back: the declarations of a text are
//! readable trees.

use crate::grammar::{
    annotation, attribute, attributes, data_type, declaration, declarations, fields, function, head,
    holds_all_items, import, import_end, inner_scope, item, items, joined, kind_at, parameter,
    parameters, receiver_end, token_text, variants, with_item, ParseOptions, Scope, Source, Step,
};
use crate::laws::{
    lemma_annotation_quiet, lemma_attribute_quiet, lemma_attributes_quiet, lemma_head_quiet,
    lemma_import_quiet, lemma_parameter_quiet, lemma_parameters_quiet, lemma_type_quiet, plain_at,
    quiet,
};
use crate::node::{DeclKind, Declaration, DescriptorView, Visibility};
use crate::render::{
    all_readable, are_members, are_tags, closer, is_annotation, is_member, is_name, is_path,
    is_readable, is_tag, is_text, spell_text,
};
use crate::grammar::container_kind;

use crate::roundtrip::{
    alone, kinds_match, lemma_attribute_moves, lemma_import_moves, lemma_joined_is_join,
    lemma_self_text, lemma_type_moves,
};
use crate::spelling::{
    lemma_join_relexes, lemma_lexemes_stand_alone, lexeme_at, lexemes, stands_alone,
};
use crate::token::{lemma_tokens_fit, tokens_fit, tokens_of, Token, TokenKind};
use vstd::prelude::*;

verus! {

/// Whether a source is a text with its tokens, the text short enough that
/// the join of any of its tokens can be held.
pub open spec fn is_lexed(src: Source) -> bool {
    src.tokens == tokens_of(src.text) && 2 * src.text.len() <= usize::MAX
}

/// The join of tokens is less than twice as long as the stretch of text from
/// the first to the last of them.
proof fn lemma_joined_bound(src: Source, first: int, last: int)
    requires
        tokens_fit(src.tokens, src.text.len()),
        0 <= first <= last < src.tokens.len(),
    ensures
        joined(src, first, last).len() + 1 <= 2 * (src.tokens[last].end - src.tokens[first].start),
        src.tokens[first].start < src.tokens[last].end <= src.text.len(),
    decreases last - first,
{
    let a = src.tokens[first];
    let b = src.tokens[last];
    assert(a.start < a.end <= src.text.len());
    assert(b.start < b.end <= src.text.len());
    if first < last {
        lemma_joined_bound(src, first, last - 1);
        let c = src.tokens[last - 1];
        assert(c.end <= b.start);
    }
}

/// A stretch of quiet tokens, joined, is a text whose tokens are these
/// tokens.
pub proof fn lemma_span_is_text(src: Source, first: int, last: int)
    requires
        is_lexed(src),
        0 <= first <= last < src.tokens.len(),
        quiet(src.tokens, first, last + 1),
    ensures
        is_text(joined(src, first, last)),
        spell_text(joined(src, first, last)) == lexemes(src).subrange(first, last + 1),
{
    let text = joined(src, first, last);
    let words = lexemes(src).subrange(first, last + 1);
    lemma_tokens_fit(src.text);
    lemma_lexemes_stand_alone(src.text);
    lemma_joined_is_join(src, first, last);
    lemma_joined_bound(src, first, last);
    assert forall|k: int| 0 <= k < words.len() implies stands_alone(#[trigger] words[k]) by {
        assert(plain_at(src.tokens, first + k));
        assert(words[k] == lexeme_at(src, first + k));
    }
    lemma_join_relexes(words);
}

/// The kinds of the tokens of a joined stretch are the kinds of the stretch.
proof fn lemma_span_kinds(src: Source, first: int, last: int, more: Seq<Token>)
    requires
        is_lexed(src),
        0 <= first <= last < src.tokens.len(),
        quiet(src.tokens, first, last + 1),
    ensures
        tokens_of(joined(src, first, last)).len() == last + 1 - first,
        kinds_match(
            src.tokens,
            first,
            tokens_of(joined(src, first, last)) + more,
            0,
            last + 1 - first,
        ),
{
    let text = joined(src, first, last);
    lemma_span_is_text(src, first, last);
    let words = lexemes(src).subrange(first, last + 1);
    let b = tokens_of(text) + more;
    assert(lexemes(alone(text)).len() == words.len());
    assert forall|j: int| 0 <= j < last + 1 - first implies #[trigger] src.tokens[first + j].kind
        == b[0 + j].kind by {
        assert(lexemes(alone(text))[j] == words[j]);
        assert(b[0 + j] == tokens_of(text)[j]);
    }
}

/// A name token, taken by itself, is a name.
pub proof fn lemma_token_is_name(src: Source, pos: int)
    requires
        is_lexed(src),
        kind_at(src.tokens, pos) == Some(TokenKind::Ident),
    ensures
        is_name(token_text(src, pos)),
{
    lemma_tokens_fit(src.text);
    lemma_lexemes_stand_alone(src.text);
    assert(stands_alone(lexeme_at(src, pos)));
    let token = src.tokens[pos];
    assert(token.start < token.end <= src.text.len());
}

pub proof fn lemma_annotation_made(src: Source, open: Option<usize>, pos: int, in_signature: bool)
    requires
        is_lexed(src),
        0 <= pos,
    ensures
        annotation(src, open, pos, in_signature) matches Step::Done(text, _) ==> is_annotation(
            text,
        ),
{
    lemma_type_quiet(src.tokens, pos, 0);
    match annotation(src, open, pos, in_signature) {
        Step::Fail(_) => {},
        Step::Done(text, end) => {
            let n = end - pos;
            lemma_span_is_text(src, pos, end - 1);
            lemma_span_kinds(src, pos, end - 1, Seq::empty());
            assert(tokens_of(text) + Seq::<Token>::empty() =~= tokens_of(text));
            lemma_type_moves(src.tokens, pos, tokens_of(text), 0, n, 0, 0);
        },
    }
}

pub proof fn lemma_attribute_made(src: Source, open: Option<usize>, pos: int)
    requires
        is_lexed(src),
        0 <= pos,
    ensures
        attribute(src, open, pos) matches Step::Done(tag, _) ==> is_tag(tag),
{
    lemma_attribute_quiet(src.tokens, open, pos + 2, 0);
    match attribute(src, open, pos) {
        Step::Fail(_) => {},
        Step::Done(tag, next) => {
            let close = next - 1;
            let n = close - (pos + 2);
            let more = seq![closer(TokenKind::CloseBracket)];
            lemma_span_is_text(src, pos + 2, close - 1);
            lemma_span_kinds(src, pos + 2, close - 1, more);
            let b = tokens_of(tag) + more;
            assert(b =~= tokens_of(tag).push(closer(TokenKind::CloseBracket)));
            assert(b[n] == closer(TokenKind::CloseBracket));
            lemma_attribute_moves(src.tokens, pos + 2, open, b, 0, None, n, 0, 0);
        },
    }
}

pub proof fn lemma_import_path_made(src: Source, open: Option<usize>, pos: int)
    requires
        is_lexed(src),
        0 <= pos,
    ensures
        import_end(src.tokens, open, pos + 1) matches Ok(semi) ==> (semi != pos + 1 ==> is_path(
            joined(src, pos + 1, semi - 1),
        )),
{
    lemma_import_quiet(src.tokens, open, pos + 1);
    match import_end(src.tokens, open, pos + 1) {
        Err(_) => {},
        Ok(semi) => {
            if semi != pos + 1 {
                let n = semi - (pos + 1);
                let path = joined(src, pos + 1, semi - 1);
                let more = seq![closer(TokenKind::Semi)];
                lemma_span_is_text(src, pos + 1, semi - 1);
                lemma_span_kinds(src, pos + 1, semi - 1, more);
                let b = tokens_of(path) + more;
                assert(b =~= tokens_of(path).push(closer(TokenKind::Semi)));
                assert(b[n] == closer(TokenKind::Semi));
                lemma_import_moves(src.tokens, pos + 1, open, b, 0, None, n, 0);
            }
        },
    }
}

/// No name is the word `self`.
pub proof fn lemma_name_is_not_self(text: Seq<char>)
    requires
        is_name(text),
    ensures
        text != "self"@,
{
    if text == "self"@ {
        assert(text.subrange(0, text.len() as int) =~= text);
        crate::token::lemma_word_end_bounds(text, 1);
    }
}

pub proof fn lemma_attributes_made(
    src: Source,
    open: Option<usize>,
    pos: int,
    found: Seq<Seq<char>>,
)
    requires
        is_lexed(src),
        0 <= pos <= src.tokens.len(),
        are_tags(found),
    ensures
        attributes(src, open, pos, found) matches Step::Done(all, _) ==> are_tags(all),
    decreases src.tokens.len() - pos,
{
    if kind_at(src.tokens, pos) == Some(TokenKind::Hash) {
        lemma_attribute_made(src, open, pos);
        lemma_attribute_quiet(src.tokens, open, pos + 2, 0);
        match attribute(src, open, pos) {
            Step::Fail(_) => {},
            Step::Done(tag, next) => {
                let more = found.push(tag);
                assert forall|i: int| 0 <= i < more.len() implies is_tag(#[trigger] more[i]) by {
                    if i < found.len() {
                        assert(more[i] == found[i]);
                    }
                }
                lemma_attributes_made(src, open, next, more);
            },
        }
    }
}

proof fn lemma_members_push(found: Seq<DescriptorView>, member: DescriptorView, kind: DeclKind)
    requires
        are_members(found, kind),
        is_member(member, kind),
    ensures
        are_members(found.push(member), kind),
{
    let more = found.push(member);
    assert forall|i: int| 0 <= i < more.len() implies is_member(#[trigger] more[i], kind) by {
        if i < found.len() {
            assert(more[i] == found[i]);
        }
    }
}

pub proof fn lemma_fields_made(
    src: Source,
    open: Option<usize>,
    pos: int,
    found: Seq<DescriptorView>,
)
    requires
        is_lexed(src),
        0 <= pos,
        are_members(found, DeclKind::StructuredType),
    ensures
        fields(src, open, pos, found) matches Step::Done(all, _) ==> are_members(
            all,
            DeclKind::StructuredType,
        ),
    decreases src.tokens.len() - pos,
{
    if kind_at(src.tokens, pos) == Some(TokenKind::Ident) && kind_at(src.tokens, pos + 1) == Some(
        TokenKind::Colon,
    ) {
        lemma_token_is_name(src, pos);
        lemma_annotation_made(src, open, pos + 2, false);
        lemma_annotation_quiet(src, open, pos + 2, false);
        match annotation(src, open, pos + 2, false) {
            Step::Fail(_) => {},
            Step::Done(text, end) => {
                let field = DescriptorView { name: token_text(src, pos), annotation: text };
                lemma_members_push(found, field, DeclKind::StructuredType);
                if kind_at(src.tokens, end) == Some(TokenKind::Comma) {
                    lemma_fields_made(src, open, end + 1, found.push(field));
                }
            },
        }
    }
}

pub proof fn lemma_variants_made(
    src: Source,
    open: Option<usize>,
    pos: int,
    found: Seq<DescriptorView>,
)
    requires
        is_lexed(src),
        0 <= pos,
        are_members(found, DeclKind::Enumeration),
    ensures
        variants(src, open, pos, found) matches Step::Done(all, _) ==> are_members(
            all,
            DeclKind::Enumeration,
        ),
    decreases src.tokens.len() - pos,
{
    if kind_at(src.tokens, pos) == Some(TokenKind::Ident) {
        lemma_token_is_name(src, pos);
        let variant = DescriptorView { name: token_text(src, pos), annotation: Seq::empty() };
        lemma_members_push(found, variant, DeclKind::Enumeration);
        if kind_at(src.tokens, pos + 1) == Some(TokenKind::Comma) {
            lemma_variants_made(src, open, pos + 2, found.push(variant));
        }
    }
}

pub proof fn lemma_parameter_made(src: Source, open: Option<usize>, pos: int, kind: DeclKind)
    requires
        is_lexed(src),
        0 <= pos,
        kind is Function || kind is TestCase,
    ensures
        parameter(src, open, pos) matches Step::Done(member, _) ==> is_member(member, kind),
{
    lemma_parameter_quiet(src, open, pos);
    match receiver_end(src.tokens, pos) {
        Some(end) => {
            let n = end - pos;
            let text = joined(src, pos, end - 1);
            lemma_span_is_text(src, pos, end - 1);
            lemma_span_kinds(src, pos, end - 1, Seq::empty());
            let b = tokens_of(text);
            assert(b + Seq::<Token>::empty() =~= b);
            assert(src.tokens[pos + 0].kind == b[0int + 0int].kind);
            if n > 1 {
                assert(src.tokens[pos + 1].kind == b[0int + 1int].kind);
            }
            if n > 2 {
                assert(src.tokens[pos + 2].kind == b[0int + 2int].kind);
            }
            lemma_tokens_fit(src.text);
            lemma_lexemes_stand_alone(src.text);
            assert(stands_alone(lexeme_at(src, end - 1)));
            lemma_self_text(lexeme_at(src, end - 1));
        },
        None => {
            if kind_at(src.tokens, pos) == Some(TokenKind::Ident) {
                lemma_token_is_name(src, pos);
                lemma_name_is_not_self(token_text(src, pos));
                lemma_annotation_made(src, open, pos + 2, true);
            }
        },
    }
}

pub proof fn lemma_parameters_made(
    src: Source,
    open: Option<usize>,
    pos: int,
    found: Seq<DescriptorView>,
    kind: DeclKind,
)
    requires
        is_lexed(src),
        0 <= pos,
        kind is Function || kind is TestCase,
        are_members(found, kind),
    ensures
        parameters(src, open, pos, found) matches Step::Done(all, _) ==> are_members(all, kind),
    decreases src.tokens.len() - pos,
{
    if kind_at(src.tokens, pos) != Some(TokenKind::CloseParen) {
        lemma_parameter_made(src, open, pos, kind);
        lemma_parameter_quiet(src, open, pos);
        match parameter(src, open, pos) {
            Step::Fail(_) => {},
            Step::Done(param, end) => {
                lemma_members_push(found, param, kind);
                if kind_at(src.tokens, end) == Some(TokenKind::Comma) {
                    lemma_parameters_made(src, open, end + 1, found.push(param), kind);
                }
            },
        }
    }
}

/// The members of a function are the same for both kinds of function.
proof fn lemma_members_of_either(members: Seq<DescriptorView>)
    requires
        are_members(members, DeclKind::Function),
    ensures
        are_members(members, DeclKind::TestCase),
{
    assert forall|i: int| 0 <= i < members.len() implies is_member(
        #[trigger] members[i],
        DeclKind::TestCase,
    ) by {
        assert(is_member(members[i], DeclKind::Function));
    }
}

pub proof fn lemma_function_made(
    src: Source,
    options: ParseOptions,
    scope: Scope,
    open: Option<usize>,
    pos: int,
    tags: Seq<Seq<char>>,
    visibility: Visibility,
)
    requires
        is_lexed(src),
        0 <= pos,
        are_tags(tags),
    ensures
        function(src, scope, open, pos, tags, visibility) matches Step::Done(node, _)
            ==> is_readable(node, options, scope),
{
    if kind_at(src.tokens, pos + 1) == Some(TokenKind::Ident) {
        lemma_token_is_name(src, pos + 1);
        lemma_parameters_made(src, open, pos + 3, Seq::empty(), DeclKind::Function);
        lemma_parameters_quiet(src, open, pos + 3, Seq::empty());
        match parameters(src, open, pos + 3, Seq::empty()) {
            Step::Fail(_) => {},
            Step::Done(params, after) => {
                lemma_members_of_either(params);
                lemma_annotation_made(src, open, after + 1, true);
            },
        }
    }
}

pub proof fn lemma_import_made(
    src: Source,
    options: ParseOptions,
    scope: Scope,
    open: Option<usize>,
    pos: int,
    tags: Seq<Seq<char>>,
    visibility: Visibility,
)
    requires
        is_lexed(src),
        0 <= pos,
        are_tags(tags),
        options.keep_imports,
        holds_all_items(scope),
    ensures
        import(src, open, pos, tags, visibility) matches Step::Done(node, _) ==> is_readable(
            node,
            options,
            scope,
        ),
{
    lemma_import_path_made(src, open, pos);
}

pub proof fn lemma_data_type_made(
    src: Source,
    options: ParseOptions,
    scope: Scope,
    open: Option<usize>,
    pos: int,
    is_enum: bool,
    tags: Seq<Seq<char>>,
    visibility: Visibility,
)
    requires
        is_lexed(src),
        0 <= pos,
        are_tags(tags),
        holds_all_items(scope),
    ensures
        data_type(src, open, pos, is_enum, tags, visibility) matches Step::Done(node, _)
            ==> is_readable(node, options, scope),
{
    if kind_at(src.tokens, pos + 1) == Some(TokenKind::Ident) {
        lemma_token_is_name(src, pos + 1);
        let inner = Some((pos + 2) as usize);
        lemma_variants_made(src, inner, pos + 3, Seq::empty());
        lemma_fields_made(src, inner, pos + 3, Seq::empty());
    }
}

pub proof fn lemma_head_made(src: Source, open: Option<usize>, pos: int)
    requires
        is_lexed(src),
        0 <= pos,
    ensures
        head(src, open, pos) matches Step::Done(named, _) ==> is_name(named.name) && (
        named.contract matches Some(name) ==> is_name(name) && kind_at(src.tokens, pos) == Some(
            TokenKind::Impl,
        )),
{
    if kind_at(src.tokens, pos + 1) == Some(TokenKind::Ident) {
        lemma_token_is_name(src, pos + 1);
    }
    if kind_at(src.tokens, pos + 3) == Some(TokenKind::Ident) {
        lemma_token_is_name(src, pos + 3);
    }
}

proof fn lemma_readable_push(
    found: Seq<Declaration>,
    node: Declaration,
    options: ParseOptions,
    scope: Scope,
)
    requires
        all_readable(found, options, scope),
        is_readable(node, options, scope),
    ensures
        all_readable(found.push(node), options, scope),
    decreases found.len(),
{
    let more = found.push(node);
    if found.len() == 0 {
        assert(more.drop_first() =~= Seq::<Declaration>::empty());
        assert(all_readable(more.drop_first(), options, scope));
    } else {
        lemma_readable_push(found.drop_first(), node, options, scope);
        assert(more.drop_first() =~= found.drop_first().push(node));
        assert(more[0] == found[0]);
    }
}

pub proof fn lemma_items_made(
    src: Source,
    options: ParseOptions,
    scope: Scope,
    open: Option<usize>,
    pos: int,
    found: Seq<Declaration>,
)
    requires
        is_lexed(src),
        0 <= pos <= src.tokens.len(),
        all_readable(found, options, scope),
    ensures
        items(src, options, scope, open, pos, found) matches Step::Done(all, _) ==> all_readable(
            all,
            options,
            scope,
        ),
    decreases src.tokens.len() - pos, 2int,
{
    if pos < src.tokens.len() && !(src.tokens[pos].kind is CloseBrace) {
        lemma_item_made(src, options, scope, open, pos);
        match item(src, options, scope, open, pos) {
            Step::Fail(_) => {},
            Step::Done(made, next) => {
                if pos < next <= src.tokens.len() {
                    match made {
                        Some(node) => {
                            lemma_readable_push(found, node, options, scope);
                        },
                        None => {},
                    }
                    lemma_items_made(src, options, scope, open, next, with_item(found, made));
                }
            },
        }
    }
}

pub proof fn lemma_item_made(
    src: Source,
    options: ParseOptions,
    scope: Scope,
    open: Option<usize>,
    pos: int,
)
    requires
        is_lexed(src),
        0 <= pos < src.tokens.len(),
    ensures
        item(src, options, scope, open, pos) matches Step::Done(made, _) ==> (
        made matches Some(node) ==> is_readable(node, options, scope)),
    decreases src.tokens.len() - pos, 1int,
{
    lemma_attributes_made(src, open, pos, Seq::empty());
    lemma_attributes_quiet(src, open, pos, Seq::empty());
    match attributes(src, open, pos, Seq::empty()) {
        Step::Fail(_) => {},
        Step::Done(tags, after) => {
            if kind_at(src.tokens, after) == Some(TokenKind::Pub) {
                lemma_declaration_made(
                    src,
                    options,
                    scope,
                    open,
                    after + 1,
                    tags,
                    Visibility::Public,
                );
            } else {
                lemma_declaration_made(src, options, scope, open, after, tags, Visibility::Private);
            }
        },
    }
}

pub proof fn lemma_declaration_made(
    src: Source,
    options: ParseOptions,
    scope: Scope,
    open: Option<usize>,
    pos: int,
    tags: Seq<Seq<char>>,
    visibility: Visibility,
)
    requires
        is_lexed(src),
        0 <= pos <= src.tokens.len(),
        are_tags(tags),
    ensures
        declaration(src, options, scope, open, pos, tags, visibility) matches Step::Done(made, _)
            ==> (made matches Some(node) ==> is_readable(node, options, scope)),
    decreases src.tokens.len() - pos, 0int,
{
    match kind_at(src.tokens, pos) {
        Some(TokenKind::Fn) => {
            lemma_function_made(src, options, scope, open, pos, tags, visibility);
        },
        Some(keyword) => {
            if !holds_all_items(scope) || !crate::grammar::is_item_keyword(keyword) {
            } else if keyword is Use {
                if options.keep_imports {
                    lemma_import_made(src, options, scope, open, pos, tags, visibility);
                }
            } else if keyword is Struct || keyword is Enum {
                lemma_data_type_made(
                    src,
                    options,
                    scope,
                    open,
                    pos,
                    keyword is Enum,
                    tags,
                    visibility,
                );
            } else {
                lemma_head_made(src, open, pos);
                lemma_head_quiet(src, open, pos);
                match head(src, open, pos) {
                    Step::Fail(_) => {},
                    Step::Done(named, brace) => {
                        lemma_items_made(
                            src,
                            options,
                            inner_scope(keyword),
                            Some(brace as usize),
                            brace + 1,
                            Seq::empty(),
                        );
                    },
                }
            }
        },
        None => {},
    }
}

/// What the parser makes of a text is a readable tree.
pub proof fn lemma_declarations_readable(src: Source, options: ParseOptions)
    requires
        is_lexed(src),
    ensures
        declarations(src, options) matches Ok(found) ==> all_readable(found, options, Scope::File),
{
    lemma_items_made(src, options, Scope::File, None, 0, Seq::empty());
}

} // verus!
