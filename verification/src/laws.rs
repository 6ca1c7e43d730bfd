//! What holds of every parse, proved from the grammar.

use crate::grammar::{
    annotation, attribute, attribute_end, attributes, block_end, data_type, declaration,
    declarations, declares, fields, function, head, import, import_end, in_type, is_item_keyword,
    is_opaque, item, items, joined, kind_at, parameter, parameters, receiver_end, second_name,
    signature, token_text, type_end, variants, with_item, ParseOptions, Scope, Source, Step,
};
use crate::node::{
    forest_named, forest_size, tree_named, tree_size, Declaration, DescriptorView, Visibility,
};
use crate::parser::{parsed, source_of};
use crate::readable::lemma_declarations_readable;
use crate::render::{all_readable, rendered};
use crate::roundtrip::lemma_readable_round_trip;
use crate::token::{lemma_tokens_fit, tokens_fit, tokens_of, Token, TokenKind};
use vstd::prelude::*;

verus! {

/// The number of tokens among those at `from..to` that make a declaration.
pub open spec fn declaring(tokens: Seq<Token>, options: ParseOptions, from: int, to: int) -> nat
    decreases to - from,
{
    if to <= from {
        0
    } else if declares(tokens[to - 1].kind, options) {
        declaring(tokens, options, from, to - 1) + 1
    } else {
        declaring(tokens, options, from, to - 1)
    }
}

/// Whether there is a token at `pos` and it neither starts an item nor is
/// an unclosed quote.
pub open spec fn plain_at(tokens: Seq<Token>, pos: int) -> bool {
    0 <= pos < tokens.len() && is_opaque(tokens[pos].kind)
}

/// Whether no token at `from..to` starts an item or is an unclosed quote.
pub open spec fn quiet(tokens: Seq<Token>, from: int, to: int) -> bool {
    forall|i: int| from <= i < to ==> #[trigger] plain_at(tokens, i)
}

/// The number of declarations that an item made.
pub open spec fn made_size(made: Option<Declaration>) -> nat {
    match made {
        Some(node) => tree_size(node),
        None => 0,
    }
}

/// Whether what an item made, if anything, has names throughout.
pub open spec fn made_named(made: Option<Declaration>) -> bool {
    match made {
        Some(node) => tree_named(node),
        None => true,
    }
}

proof fn lemma_quiet_declares_nothing(tokens: Seq<Token>, options: ParseOptions, from: int, to: int)
    requires
        quiet(tokens, from, to),
    ensures
        declaring(tokens, options, from, to) == 0,
    decreases to - from,
{
    if from < to {
        assert(plain_at(tokens, to - 1));
        lemma_quiet_declares_nothing(tokens, options, from, to - 1);
    }
}

proof fn lemma_declaring_splits(
    tokens: Seq<Token>,
    options: ParseOptions,
    from: int,
    mid: int,
    to: int,
)
    requires
        from <= mid <= to,
    ensures
        declaring(tokens, options, from, to) == declaring(tokens, options, from, mid) + declaring(
            tokens,
            options,
            mid,
            to,
        ),
    decreases to - mid,
{
    if mid < to {
        lemma_declaring_splits(tokens, options, from, mid, to - 1);
    }
}

/// The count for an item: quiet tokens, then the keyword at `at`, then what
/// follows it.
proof fn lemma_declaring_item(
    tokens: Seq<Token>,
    options: ParseOptions,
    from: int,
    at: int,
    to: int,
)
    requires
        from <= at < to,
        quiet(tokens, from, at),
    ensures
        declaring(tokens, options, from, to) == (if declares(tokens[at].kind, options) {
            1nat
        } else {
            0nat
        }) + declaring(tokens, options, at + 1, to),
{
    lemma_quiet_declares_nothing(tokens, options, from, at);
    lemma_declaring_splits(tokens, options, from, at, to);
    lemma_declaring_splits(tokens, options, at, at + 1, to);
    assert(declaring(tokens, options, at, at) == 0);
}

proof fn lemma_forest_push(forest: Seq<Declaration>, tree: Declaration)
    ensures
        forest_size(forest.push(tree)) == forest_size(forest) + tree_size(tree),
        forest_named(forest.push(tree)) == (forest_named(forest) && tree_named(tree)),
{
    assert(forest.push(tree).drop_last() =~= forest);
}

proof fn lemma_span_not_empty(src: Source, first: int, last: int)
    requires
        tokens_fit(src.tokens, src.text.len()),
        0 <= first <= last < src.tokens.len(),
    ensures
        joined(src, first, last).len() > 0,
{
    let a = src.tokens[first];
    let b = src.tokens[last];
    assert(a.start < a.end <= src.text.len());
    assert(b.start < b.end <= src.text.len());
}

pub proof fn lemma_block_quiet(tokens: Seq<Token>, open: usize, pos: int, depth: nat)
    requires
        0 <= pos,
    ensures
        block_end(tokens, open, pos, depth) matches Ok(next) ==> pos < next <= tokens.len()
            && quiet(tokens, pos, next),
    decreases tokens.len() - pos,
{
    if pos < tokens.len() && is_opaque(tokens[pos].kind) {
        assert(plain_at(tokens, pos));
        if tokens[pos].kind is OpenBrace {
            lemma_block_quiet(tokens, open, pos + 1, depth + 1);
        } else if tokens[pos].kind is CloseBrace {
            if depth > 0 {
                lemma_block_quiet(tokens, open, pos + 1, (depth - 1) as nat);
            }
        } else {
            lemma_block_quiet(tokens, open, pos + 1, depth);
        }
    }
}

pub proof fn lemma_attribute_quiet(tokens: Seq<Token>, open: Option<usize>, pos: int, depth: nat)
    requires
        0 <= pos,
    ensures
        attribute_end(tokens, open, pos, depth) matches Ok(close) ==> pos <= close < tokens.len()
            && quiet(tokens, pos, close + 1),
    decreases tokens.len() - pos,
{
    if pos < tokens.len() && is_opaque(tokens[pos].kind) {
        assert(plain_at(tokens, pos));
        if tokens[pos].kind is OpenBracket {
            lemma_attribute_quiet(tokens, open, pos + 1, depth + 1);
        } else if tokens[pos].kind is CloseBracket {
            if depth > 0 {
                lemma_attribute_quiet(tokens, open, pos + 1, (depth - 1) as nat);
            }
        } else {
            lemma_attribute_quiet(tokens, open, pos + 1, depth);
        }
    }
}

pub proof fn lemma_import_quiet(tokens: Seq<Token>, open: Option<usize>, pos: int)
    requires
        0 <= pos,
    ensures
        import_end(tokens, open, pos) matches Ok(semi) ==> pos <= semi < tokens.len() && quiet(
            tokens,
            pos,
            semi + 1,
        ),
    decreases tokens.len() - pos,
{
    if pos < tokens.len() && is_opaque(tokens[pos].kind) {
        assert(plain_at(tokens, pos));
        if !(tokens[pos].kind is Semi) {
            lemma_import_quiet(tokens, open, pos + 1);
        }
    }
}

pub proof fn lemma_type_quiet(tokens: Seq<Token>, pos: int, depth: nat)
    requires
        0 <= pos,
    ensures
        pos <= type_end(tokens, pos, depth).0,
        type_end(tokens, pos, depth).0 <= tokens.len() || type_end(tokens, pos, depth).0 == pos,
        quiet(tokens, pos, type_end(tokens, pos, depth).0),
    decreases tokens.len() - pos,
{
    if pos < tokens.len() && in_type(tokens[pos].kind) && !second_name(tokens, pos) {
        assert(plain_at(tokens, pos));
        let kind = tokens[pos].kind;
        if kind is Less || kind is OpenParen || kind is OpenBracket {
            lemma_type_quiet(tokens, pos + 1, depth + 1);
        } else if kind is Greater || kind is CloseParen || kind is CloseBracket {
            if depth > 0 {
                lemma_type_quiet(tokens, pos + 1, (depth - 1) as nat);
            }
        } else if (kind is Comma || kind is Semi) && depth == 0 {
        } else {
            lemma_type_quiet(tokens, pos + 1, depth);
        }
    }
}

pub proof fn lemma_annotation_quiet(src: Source, open: Option<usize>, pos: int, in_signature: bool)
    requires
        0 <= pos,
    ensures
        annotation(src, open, pos, in_signature) matches Step::Done(_, end) ==> pos < end
            <= src.tokens.len() && quiet(src.tokens, pos, end),
{
    lemma_type_quiet(src.tokens, pos, 0);
}

pub proof fn lemma_attributes_quiet(src: Source, open: Option<usize>, pos: int, found: Seq<Seq<char>>)
    requires
        0 <= pos <= src.tokens.len(),
    ensures
        attributes(src, open, pos, found) matches Step::Done(_, after) ==> pos <= after
            <= src.tokens.len() && quiet(src.tokens, pos, after),
    decreases src.tokens.len() - pos,
{
    if kind_at(src.tokens, pos) == Some(TokenKind::Hash) {
        lemma_attribute_quiet(src.tokens, open, pos + 2, 0);
        match attribute(src, open, pos) {
            Step::Fail(_) => {},
            Step::Done(tag, next) => {
                assert(plain_at(src.tokens, pos));
                assert(plain_at(src.tokens, pos + 1));
                lemma_attributes_quiet(src, open, next, found.push(tag));
            },
        }
    }
}

pub proof fn lemma_fields_quiet(src: Source, open: Option<usize>, pos: int, found: Seq<DescriptorView>)
    requires
        0 <= pos,
    ensures
        fields(src, open, pos, found) matches Step::Done(_, next) ==> pos < next
            <= src.tokens.len() && quiet(src.tokens, pos, next),
    decreases src.tokens.len() - pos,
{
    if kind_at(src.tokens, pos) == Some(TokenKind::CloseBrace) {
        assert(plain_at(src.tokens, pos));
    } else if kind_at(src.tokens, pos) == Some(TokenKind::Ident) && kind_at(src.tokens, pos + 1)
        == Some(TokenKind::Colon) {
        assert(plain_at(src.tokens, pos));
        assert(plain_at(src.tokens, pos + 1));
        lemma_annotation_quiet(src, open, pos + 2, false);
        match annotation(src, open, pos + 2, false) {
            Step::Fail(_) => {},
            Step::Done(text, end) => {
                let field = DescriptorView { name: token_text(src, pos), annotation: text };
                if kind_at(src.tokens, end) == Some(TokenKind::Comma) {
                    assert(plain_at(src.tokens, end));
                    lemma_fields_quiet(src, open, end + 1, found.push(field));
                } else if kind_at(src.tokens, end) == Some(TokenKind::CloseBrace) {
                    assert(plain_at(src.tokens, end));
                }
            },
        }
    }
}

pub proof fn lemma_variants_quiet(src: Source, open: Option<usize>, pos: int, found: Seq<DescriptorView>)
    requires
        0 <= pos,
    ensures
        variants(src, open, pos, found) matches Step::Done(_, next) ==> pos < next
            <= src.tokens.len() && quiet(src.tokens, pos, next),
    decreases src.tokens.len() - pos,
{
    if kind_at(src.tokens, pos) == Some(TokenKind::CloseBrace) {
        assert(plain_at(src.tokens, pos));
    } else if kind_at(src.tokens, pos) == Some(TokenKind::Ident) {
        assert(plain_at(src.tokens, pos));
        let variant = DescriptorView { name: token_text(src, pos), annotation: Seq::empty() };
        if kind_at(src.tokens, pos + 1) == Some(TokenKind::Comma) {
            assert(plain_at(src.tokens, pos + 1));
            lemma_variants_quiet(src, open, pos + 2, found.push(variant));
        } else if kind_at(src.tokens, pos + 1) == Some(TokenKind::CloseBrace) {
            assert(plain_at(src.tokens, pos + 1));
        }
    }
}

pub proof fn lemma_parameter_quiet(src: Source, open: Option<usize>, pos: int)
    requires
        0 <= pos,
    ensures
        parameter(src, open, pos) matches Step::Done(_, end) ==> pos < end <= src.tokens.len()
            && quiet(src.tokens, pos, end),
{
    match receiver_end(src.tokens, pos) {
        Some(end) => {
            assert forall|i: int| pos <= i < end implies #[trigger] plain_at(src.tokens, i) by {
                assert(kind_at(src.tokens, i) == Some(TokenKind::Amp) || kind_at(src.tokens, i)
                    == Some(TokenKind::Mut) || kind_at(src.tokens, i) == Some(
                    TokenKind::SelfValue,
                ));
            }
        },
        None => {
            if kind_at(src.tokens, pos) == Some(TokenKind::Ident) && kind_at(src.tokens, pos + 1)
                == Some(TokenKind::Colon) {
                assert(plain_at(src.tokens, pos));
                assert(plain_at(src.tokens, pos + 1));
                lemma_annotation_quiet(src, open, pos + 2, true);
            }
        },
    }
}

pub proof fn lemma_parameters_quiet(
    src: Source,
    open: Option<usize>,
    pos: int,
    found: Seq<DescriptorView>,
)
    requires
        0 <= pos,
    ensures
        parameters(src, open, pos, found) matches Step::Done(_, next) ==> pos < next
            <= src.tokens.len() && quiet(src.tokens, pos, next),
    decreases src.tokens.len() - pos,
{
    if kind_at(src.tokens, pos) == Some(TokenKind::CloseParen) {
        assert(plain_at(src.tokens, pos));
    } else {
        lemma_parameter_quiet(src, open, pos);
        match parameter(src, open, pos) {
            Step::Fail(_) => {},
            Step::Done(param, end) => {
                if kind_at(src.tokens, end) == Some(TokenKind::Comma) {
                    assert(plain_at(src.tokens, end));
                    lemma_parameters_quiet(src, open, end + 1, found.push(param));
                } else if kind_at(src.tokens, end) == Some(TokenKind::CloseParen) {
                    assert(plain_at(src.tokens, end));
                }
            },
        }
    }
}

pub proof fn lemma_signature_quiet(src: Source, open: Option<usize>, pos: int)
    requires
        0 <= pos,
    ensures
        signature(src, open, pos) matches Step::Done(sig, end) ==> pos + 3 < end
            <= src.tokens.len() && quiet(src.tokens, pos + 1, end) && (tokens_fit(
            src.tokens,
            src.text.len(),
        ) ==> sig.name.len() > 0),
{
    if kind_at(src.tokens, pos + 1) == Some(TokenKind::Ident) && kind_at(src.tokens, pos + 2)
        == Some(TokenKind::OpenParen) {
        assert(plain_at(src.tokens, pos + 1));
        assert(plain_at(src.tokens, pos + 2));
        if tokens_fit(src.tokens, src.text.len()) {
            lemma_span_not_empty(src, pos + 1, pos + 1);
        }
        lemma_parameters_quiet(src, open, pos + 3, Seq::empty());
        match parameters(src, open, pos + 3, Seq::empty()) {
            Step::Fail(_) => {},
            Step::Done(params, after) => {
                if kind_at(src.tokens, after) == Some(TokenKind::Arrow) {
                    assert(plain_at(src.tokens, after));
                    lemma_annotation_quiet(src, open, after + 1, true);
                }
            },
        }
    }
}

pub proof fn lemma_function_count(
    src: Source,
    scope: Scope,
    open: Option<usize>,
    pos: int,
    tags: Seq<Seq<char>>,
    visibility: Visibility,
)
    requires
        0 <= pos,
    ensures
        function(src, scope, open, pos, tags, visibility) matches Step::Done(node, next) ==> pos
            < next <= src.tokens.len() && quiet(src.tokens, pos + 1, next) && tree_size(node) == 1
            && (tokens_fit(src.tokens, src.text.len()) ==> tree_named(node)),
{
    lemma_signature_quiet(src, open, pos);
    match signature(src, open, pos) {
        Step::Fail(_) => {},
        Step::Done(sig, end) => {
            if scope is Contract {
                if kind_at(src.tokens, end) == Some(TokenKind::Semi) {
                    assert(plain_at(src.tokens, end));
                }
            } else if kind_at(src.tokens, end) == Some(TokenKind::OpenBrace) {
                assert(plain_at(src.tokens, end));
                lemma_block_quiet(src.tokens, end as usize, end + 1, 0);
            }
        },
    }
}

pub proof fn lemma_import_count(
    src: Source,
    open: Option<usize>,
    pos: int,
    tags: Seq<Seq<char>>,
    visibility: Visibility,
)
    requires
        0 <= pos,
    ensures
        import(src, open, pos, tags, visibility) matches Step::Done(node, next) ==> pos < next
            <= src.tokens.len() && quiet(src.tokens, pos + 1, next) && tree_size(node) == 1 && (
        tokens_fit(src.tokens, src.text.len()) ==> tree_named(node)),
{
    lemma_import_quiet(src.tokens, open, pos + 1);
    match import_end(src.tokens, open, pos + 1) {
        Err(_) => {},
        Ok(semi) => {
            if semi != pos + 1 && tokens_fit(src.tokens, src.text.len()) {
                lemma_span_not_empty(src, pos + 1, semi - 1);
            }
        },
    }
}

pub proof fn lemma_data_type_count(
    src: Source,
    open: Option<usize>,
    pos: int,
    is_enum: bool,
    tags: Seq<Seq<char>>,
    visibility: Visibility,
)
    requires
        0 <= pos,
    ensures
        data_type(src, open, pos, is_enum, tags, visibility) matches Step::Done(node, next) ==> pos
            < next <= src.tokens.len() && quiet(src.tokens, pos + 1, next) && tree_size(node) == 1
            && (tokens_fit(src.tokens, src.text.len()) ==> tree_named(node)),
{
    if kind_at(src.tokens, pos + 1) == Some(TokenKind::Ident) && kind_at(src.tokens, pos + 2)
        == Some(TokenKind::OpenBrace) {
        assert(plain_at(src.tokens, pos + 1));
        assert(plain_at(src.tokens, pos + 2));
        if tokens_fit(src.tokens, src.text.len()) {
            lemma_span_not_empty(src, pos + 1, pos + 1);
        }
        let inner = Some((pos + 2) as usize);
        if is_enum {
            lemma_variants_quiet(src, inner, pos + 3, Seq::empty());
        } else {
            lemma_fields_quiet(src, inner, pos + 3, Seq::empty());
        }
    }
}

pub proof fn lemma_head_quiet(src: Source, open: Option<usize>, pos: int)
    requires
        0 <= pos,
    ensures
        head(src, open, pos) matches Step::Done(named, brace) ==> pos < brace < src.tokens.len()
            && quiet(src.tokens, pos + 1, brace + 1) && (tokens_fit(src.tokens, src.text.len())
            ==> named.name.len() > 0),
{
    match head(src, open, pos) {
        Step::Fail(_) => {},
        Step::Done(named, brace) => {
            assert forall|i: int| pos + 1 <= i < brace + 1 implies #[trigger] plain_at(
                src.tokens,
                i,
            ) by {
                assert(kind_at(src.tokens, i) == Some(TokenKind::Ident) || kind_at(src.tokens, i)
                    == Some(TokenKind::For) || kind_at(src.tokens, i) == Some(
                    TokenKind::OpenBrace,
                ));
            }
            if tokens_fit(src.tokens, src.text.len()) {
                lemma_span_not_empty(src, pos + 1, pos + 1);
                if brace == pos + 4 {
                    lemma_span_not_empty(src, pos + 3, pos + 3);
                }
            }
        },
    }
}

/// What holds of the items of a scope: they end within the tokens, every
/// declaring token among them made one declaration, and every declaration
/// made has a name.
pub proof fn lemma_items_count(
    src: Source,
    options: ParseOptions,
    scope: Scope,
    open: Option<usize>,
    pos: int,
    found: Seq<Declaration>,
)
    requires
        0 <= pos <= src.tokens.len(),
    ensures
        items(src, options, scope, open, pos, found) matches Step::Done(all, next) ==> pos <= next
            <= src.tokens.len() && forest_size(all) == forest_size(found) + declaring(
            src.tokens,
            options,
            pos,
            next,
        ) && (tokens_fit(src.tokens, src.text.len()) && forest_named(found) ==> forest_named(all)),
    decreases src.tokens.len() - pos, 2int,
{
    if pos < src.tokens.len() {
        if src.tokens[pos].kind is CloseBrace {
            assert(plain_at(src.tokens, pos));
            assert(quiet(src.tokens, pos, pos + 1));
            lemma_quiet_declares_nothing(src.tokens, options, pos, pos + 1);
        } else {
            lemma_item_count(src, options, scope, open, pos);
            match item(src, options, scope, open, pos) {
                Step::Fail(_) => {},
                Step::Done(made, next) => {
                    let more = with_item(found, made);
                    lemma_items_count(src, options, scope, open, next, more);
                    match items(src, options, scope, open, next, more) {
                        Step::Fail(_) => {},
                        Step::Done(all, last) => {
                            lemma_declaring_splits(src.tokens, options, pos, next, last);
                            match made {
                                Some(node) => {
                                    lemma_forest_push(found, node);
                                },
                                None => {},
                            }
                        },
                    }
                },
            }
        }
    }
}

pub proof fn lemma_item_count(
    src: Source,
    options: ParseOptions,
    scope: Scope,
    open: Option<usize>,
    pos: int,
)
    requires
        0 <= pos < src.tokens.len(),
    ensures
        item(src, options, scope, open, pos) matches Step::Done(made, next) ==> pos < next
            <= src.tokens.len() && made_size(made) == declaring(src.tokens, options, pos, next)
            && (tokens_fit(src.tokens, src.text.len()) ==> made_named(made)),
    decreases src.tokens.len() - pos, 1int,
{
    lemma_attributes_quiet(src, open, pos, Seq::empty());
    match attributes(src, open, pos, Seq::empty()) {
        Step::Fail(_) => {},
        Step::Done(tags, after) => {
            let (at, visibility) = if kind_at(src.tokens, after) == Some(TokenKind::Pub) {
                (after + 1, Visibility::Public)
            } else {
                (after, Visibility::Private)
            };
            if kind_at(src.tokens, after) == Some(TokenKind::Pub) {
                assert(plain_at(src.tokens, after));
            }
            assert(quiet(src.tokens, pos, at));
            lemma_declaration_count(src, options, scope, open, at, tags, visibility);
            match declaration(src, options, scope, open, at, tags, visibility) {
                Step::Fail(_) => {},
                Step::Done(made, next) => {
                    lemma_declaring_item(src.tokens, options, pos, at, next);
                },
            }
        },
    }
}

pub proof fn lemma_declaration_count(
    src: Source,
    options: ParseOptions,
    scope: Scope,
    open: Option<usize>,
    pos: int,
    tags: Seq<Seq<char>>,
    visibility: Visibility,
)
    requires
        0 <= pos <= src.tokens.len(),
    ensures
        declaration(src, options, scope, open, pos, tags, visibility) matches Step::Done(
            made,
            next,
        ) ==> pos < next <= src.tokens.len() && made_size(made) == (if declares(
            src.tokens[pos].kind,
            options,
        ) {
            1nat
        } else {
            0nat
        }) + declaring(src.tokens, options, pos + 1, next) && (tokens_fit(
            src.tokens,
            src.text.len(),
        ) ==> made_named(made)),
    decreases src.tokens.len() - pos, 0int,
{
    match kind_at(src.tokens, pos) {
        Some(TokenKind::Fn) => {
            lemma_function_count(src, scope, open, pos, tags, visibility);
            match function(src, scope, open, pos, tags, visibility) {
                Step::Fail(_) => {},
                Step::Done(_, next) => {
                    lemma_quiet_declares_nothing(src.tokens, options, pos + 1, next);
                },
            }
        },
        Some(keyword) => {
            if !(scope is File || scope is Namespace) || !is_item_keyword(keyword) {
            } else if keyword is Use {
                lemma_import_count(src, open, pos, tags, visibility);
                match import(src, open, pos, tags, visibility) {
                    Step::Fail(_) => {},
                    Step::Done(_, next) => {
                        lemma_quiet_declares_nothing(src.tokens, options, pos + 1, next);
                    },
                }
            } else if keyword is Struct || keyword is Enum {
                lemma_data_type_count(src, open, pos, keyword is Enum, tags, visibility);
                match data_type(src, open, pos, keyword is Enum, tags, visibility) {
                    Step::Fail(_) => {},
                    Step::Done(_, next) => {
                        lemma_quiet_declares_nothing(src.tokens, options, pos + 1, next);
                    },
                }
            } else {
                lemma_head_quiet(src, open, pos);
                match head(src, open, pos) {
                    Step::Fail(_) => {},
                    Step::Done(named, brace) => {
                        let inner = crate::grammar::inner_scope(keyword);
                        lemma_items_count(
                            src,
                            options,
                            inner,
                            Some(brace as usize),
                            brace + 1,
                            Seq::empty(),
                        );
                        match items(
                            src,
                            options,
                            inner,
                            Some(brace as usize),
                            brace + 1,
                            Seq::empty(),
                        ) {
                            Step::Fail(_) => {},
                            Step::Done(children, next) => {
                                lemma_quiet_declares_nothing(
                                    src.tokens,
                                    options,
                                    pos + 1,
                                    brace + 1,
                                );
                                lemma_declaring_splits(
                                    src.tokens,
                                    options,
                                    pos + 1,
                                    brace + 1,
                                    next,
                                );
                            },
                        }
                    },
                }
            }
        },
        None => {},
    }
}

/// Whether two token sequences are equally long and hold the same kinds.
pub open spec fn same_kinds(a: Seq<Token>, b: Seq<Token>) -> bool {
    &&& a.len() == b.len()
    &&& forall|i: int| #[trigger] kind_at(a, i) == kind_at(b, i)
}

/// Whether two sources have the same tokens: as many, of the same kinds,
/// spelled alike. Where the tokens stand in the text, and what stands between
/// them, is left open.
pub open spec fn same_tokens(a: Source, b: Source) -> bool {
    &&& same_kinds(a.tokens, b.tokens)
    &&& forall|i: int|
        0 <= i < a.tokens.len() ==> #[trigger] token_text(a, i) == token_text(b, i)
}

proof fn lemma_same_kind(a: Seq<Token>, b: Seq<Token>, pos: int)
    requires
        same_kinds(a, b),
        0 <= pos < a.len(),
    ensures
        a[pos].kind == b[pos].kind,
{
    assert(kind_at(a, pos) == kind_at(b, pos));
}

proof fn lemma_block_same(a: Seq<Token>, b: Seq<Token>, open: usize, pos: int, depth: nat)
    requires
        same_kinds(a, b),
        0 <= pos,
    ensures
        block_end(a, open, pos, depth) == block_end(b, open, pos, depth),
    decreases a.len() - pos,
{
    if pos < a.len() {
        lemma_same_kind(a, b, pos);
        lemma_block_same(a, b, open, pos + 1, depth + 1);
        lemma_block_same(a, b, open, pos + 1, depth);
        if depth > 0 {
            lemma_block_same(a, b, open, pos + 1, (depth - 1) as nat);
        }
    }
}

proof fn lemma_attribute_end_same(
    a: Seq<Token>,
    b: Seq<Token>,
    open: Option<usize>,
    pos: int,
    depth: nat,
)
    requires
        same_kinds(a, b),
        0 <= pos,
    ensures
        attribute_end(a, open, pos, depth) == attribute_end(b, open, pos, depth),
    decreases a.len() - pos,
{
    if pos < a.len() {
        lemma_same_kind(a, b, pos);
        lemma_attribute_end_same(a, b, open, pos + 1, depth + 1);
        lemma_attribute_end_same(a, b, open, pos + 1, depth);
        if depth > 0 {
            lemma_attribute_end_same(a, b, open, pos + 1, (depth - 1) as nat);
        }
    }
}

proof fn lemma_import_end_same(a: Seq<Token>, b: Seq<Token>, open: Option<usize>, pos: int)
    requires
        same_kinds(a, b),
        0 <= pos,
    ensures
        import_end(a, open, pos) == import_end(b, open, pos),
    decreases a.len() - pos,
{
    if pos < a.len() {
        lemma_same_kind(a, b, pos);
        lemma_import_end_same(a, b, open, pos + 1);
    }
}

proof fn lemma_type_end_same(a: Seq<Token>, b: Seq<Token>, pos: int, depth: nat)
    requires
        same_kinds(a, b),
        0 <= pos,
    ensures
        type_end(a, pos, depth) == type_end(b, pos, depth),
    decreases a.len() - pos,
{
    if pos < a.len() {
        lemma_same_kind(a, b, pos);
        assert(kind_at(a, pos - 1) == kind_at(b, pos - 1));
        lemma_type_end_same(a, b, pos + 1, depth + 1);
        lemma_type_end_same(a, b, pos + 1, depth);
        if depth > 0 {
            lemma_type_end_same(a, b, pos + 1, (depth - 1) as nat);
        }
    }
}

proof fn lemma_joined_same(a: Source, b: Source, first: int, last: int)
    requires
        same_tokens(a, b),
        0 <= first < a.tokens.len(),
        last < a.tokens.len(),
    ensures
        joined(a, first, last) == joined(b, first, last),
    decreases last - first,
{
    if first < last {
        lemma_joined_same(a, b, first, last - 1);
        lemma_same_kind(a.tokens, b.tokens, last - 1);
        lemma_same_kind(a.tokens, b.tokens, last);
        assert(token_text(a, last) == token_text(b, last));
    } else {
        assert(token_text(a, first) == token_text(b, first));
    }
}

proof fn lemma_attributes_same(
    a: Source,
    b: Source,
    open: Option<usize>,
    pos: int,
    found: Seq<Seq<char>>,
)
    requires
        same_tokens(a, b),
        0 <= pos <= a.tokens.len(),
    ensures
        attributes(a, open, pos, found) == attributes(b, open, pos, found),
    decreases a.tokens.len() - pos,
{
    assert(kind_at(a.tokens, pos) == kind_at(b.tokens, pos));
    if kind_at(a.tokens, pos) == Some(TokenKind::Hash) {
        assert(kind_at(a.tokens, pos + 1) == kind_at(b.tokens, pos + 1));
        lemma_attribute_end_same(a.tokens, b.tokens, open, pos + 2, 0);
        lemma_attribute_quiet(a.tokens, open, pos + 2, 0);
        match attribute(a, open, pos) {
            Step::Fail(_) => {},
            Step::Done(tag, next) => {
                lemma_joined_same(a, b, pos + 2, next - 2);
                lemma_attributes_same(a, b, open, next, found.push(tag));
            },
        }
    }
}

proof fn lemma_annotation_same(a: Source, b: Source, open: Option<usize>, pos: int, in_signature: bool)
    requires
        same_tokens(a, b),
        0 <= pos,
    ensures
        annotation(a, open, pos, in_signature) == annotation(b, open, pos, in_signature),
{
    lemma_type_end_same(a.tokens, b.tokens, pos, 0);
    lemma_type_quiet(a.tokens, pos, 0);
    let (end, depth) = type_end(a.tokens, pos, 0);
    if end != pos && depth == 0 {
        lemma_joined_same(a, b, pos, end - 1);
    }
}

proof fn lemma_fields_same(
    a: Source,
    b: Source,
    open: Option<usize>,
    pos: int,
    found: Seq<DescriptorView>,
)
    requires
        same_tokens(a, b),
        0 <= pos,
    ensures
        fields(a, open, pos, found) == fields(b, open, pos, found),
    decreases a.tokens.len() - pos,
{
    assert(kind_at(a.tokens, pos) == kind_at(b.tokens, pos));
    assert(kind_at(a.tokens, pos + 1) == kind_at(b.tokens, pos + 1));
    if kind_at(a.tokens, pos) == Some(TokenKind::Ident) {
        assert(token_text(a, pos) == token_text(b, pos));
        lemma_annotation_same(a, b, open, pos + 2, false);
        lemma_annotation_quiet(a, open, pos + 2, false);
        match annotation(a, open, pos + 2, false) {
            Step::Fail(_) => {},
            Step::Done(text, end) => {
                assert(kind_at(a.tokens, end) == kind_at(b.tokens, end));
                let field = DescriptorView { name: token_text(a, pos), annotation: text };
                if kind_at(a.tokens, end) == Some(TokenKind::Comma) {
                    lemma_fields_same(a, b, open, end + 1, found.push(field));
                }
            },
        }
    }
}

proof fn lemma_variants_same(
    a: Source,
    b: Source,
    open: Option<usize>,
    pos: int,
    found: Seq<DescriptorView>,
)
    requires
        same_tokens(a, b),
        0 <= pos,
    ensures
        variants(a, open, pos, found) == variants(b, open, pos, found),
    decreases a.tokens.len() - pos,
{
    assert(kind_at(a.tokens, pos) == kind_at(b.tokens, pos));
    assert(kind_at(a.tokens, pos + 1) == kind_at(b.tokens, pos + 1));
    if kind_at(a.tokens, pos) == Some(TokenKind::Ident) {
        assert(token_text(a, pos) == token_text(b, pos));
        let variant = DescriptorView { name: token_text(a, pos), annotation: Seq::empty() };
        if kind_at(a.tokens, pos + 1) == Some(TokenKind::Comma) {
            lemma_variants_same(a, b, open, pos + 2, found.push(variant));
        }
    }
}

proof fn lemma_receiver_same(a: Seq<Token>, b: Seq<Token>, pos: int)
    requires
        same_kinds(a, b),
    ensures
        receiver_end(a, pos) == receiver_end(b, pos),
{
    assert(kind_at(a, pos) == kind_at(b, pos));
    assert(kind_at(a, pos + 1) == kind_at(b, pos + 1));
    assert(kind_at(a, pos + 2) == kind_at(b, pos + 2));
}

proof fn lemma_parameter_same(a: Source, b: Source, open: Option<usize>, pos: int)
    requires
        same_tokens(a, b),
        0 <= pos,
    ensures
        parameter(a, open, pos) == parameter(b, open, pos),
{
    lemma_receiver_same(a.tokens, b.tokens, pos);
    assert(kind_at(a.tokens, pos) == kind_at(b.tokens, pos));
    assert(kind_at(a.tokens, pos + 1) == kind_at(b.tokens, pos + 1));
    match receiver_end(a.tokens, pos) {
        Some(end) => {
            assert(token_text(a, end - 1) == token_text(b, end - 1));
            lemma_joined_same(a, b, pos, end - 1);
        },
        None => {
            if kind_at(a.tokens, pos) == Some(TokenKind::Ident) {
                assert(token_text(a, pos) == token_text(b, pos));
                lemma_annotation_same(a, b, open, pos + 2, true);
            }
        },
    }
}

proof fn lemma_parameters_same(
    a: Source,
    b: Source,
    open: Option<usize>,
    pos: int,
    found: Seq<DescriptorView>,
)
    requires
        same_tokens(a, b),
        0 <= pos,
    ensures
        parameters(a, open, pos, found) == parameters(b, open, pos, found),
    decreases a.tokens.len() - pos,
{
    assert(kind_at(a.tokens, pos) == kind_at(b.tokens, pos));
    lemma_parameter_same(a, b, open, pos);
    lemma_parameter_quiet(a, open, pos);
    match parameter(a, open, pos) {
        Step::Fail(_) => {},
        Step::Done(param, end) => {
            assert(kind_at(a.tokens, end) == kind_at(b.tokens, end));
            if kind_at(a.tokens, end) == Some(TokenKind::Comma) {
                lemma_parameters_same(a, b, open, end + 1, found.push(param));
            }
        },
    }
}

proof fn lemma_signature_same(a: Source, b: Source, open: Option<usize>, pos: int)
    requires
        same_tokens(a, b),
        0 <= pos,
    ensures
        signature(a, open, pos) == signature(b, open, pos),
{
    assert(kind_at(a.tokens, pos + 1) == kind_at(b.tokens, pos + 1));
    assert(kind_at(a.tokens, pos + 2) == kind_at(b.tokens, pos + 2));
    if kind_at(a.tokens, pos + 1) == Some(TokenKind::Ident) {
        assert(token_text(a, pos + 1) == token_text(b, pos + 1));
        lemma_parameters_same(a, b, open, pos + 3, Seq::empty());
        lemma_parameters_quiet(a, open, pos + 3, Seq::empty());
        match parameters(a, open, pos + 3, Seq::empty()) {
            Step::Fail(_) => {},
            Step::Done(_, after) => {
                assert(kind_at(a.tokens, after) == kind_at(b.tokens, after));
                lemma_annotation_same(a, b, open, after + 1, true);
            },
        }
    }
}

proof fn lemma_function_same(
    a: Source,
    b: Source,
    scope: Scope,
    open: Option<usize>,
    pos: int,
    tags: Seq<Seq<char>>,
    visibility: Visibility,
)
    requires
        same_tokens(a, b),
        0 <= pos,
    ensures
        function(a, scope, open, pos, tags, visibility) == function(
            b,
            scope,
            open,
            pos,
            tags,
            visibility,
        ),
{
    lemma_signature_same(a, b, open, pos);
    lemma_signature_quiet(a, open, pos);
    match signature(a, open, pos) {
        Step::Fail(_) => {},
        Step::Done(_, end) => {
            assert(kind_at(a.tokens, end) == kind_at(b.tokens, end));
            lemma_block_same(a.tokens, b.tokens, end as usize, end + 1, 0);
        },
    }
}

proof fn lemma_import_same(
    a: Source,
    b: Source,
    open: Option<usize>,
    pos: int,
    tags: Seq<Seq<char>>,
    visibility: Visibility,
)
    requires
        same_tokens(a, b),
        0 <= pos,
    ensures
        import(a, open, pos, tags, visibility) == import(b, open, pos, tags, visibility),
{
    lemma_import_end_same(a.tokens, b.tokens, open, pos + 1);
    lemma_import_quiet(a.tokens, open, pos + 1);
    match import_end(a.tokens, open, pos + 1) {
        Err(_) => {},
        Ok(semi) => {
            if semi != pos + 1 {
                lemma_joined_same(a, b, pos + 1, semi - 1);
            }
        },
    }
}

proof fn lemma_data_type_same(
    a: Source,
    b: Source,
    open: Option<usize>,
    pos: int,
    is_enum: bool,
    tags: Seq<Seq<char>>,
    visibility: Visibility,
)
    requires
        same_tokens(a, b),
        0 <= pos,
    ensures
        data_type(a, open, pos, is_enum, tags, visibility) == data_type(
            b,
            open,
            pos,
            is_enum,
            tags,
            visibility,
        ),
{
    assert(kind_at(a.tokens, pos + 1) == kind_at(b.tokens, pos + 1));
    assert(kind_at(a.tokens, pos + 2) == kind_at(b.tokens, pos + 2));
    if kind_at(a.tokens, pos + 1) == Some(TokenKind::Ident) {
        assert(token_text(a, pos + 1) == token_text(b, pos + 1));
        let inner = Some((pos + 2) as usize);
        lemma_variants_same(a, b, inner, pos + 3, Seq::empty());
        lemma_fields_same(a, b, inner, pos + 3, Seq::empty());
    }
}

proof fn lemma_head_same(a: Source, b: Source, open: Option<usize>, pos: int)
    requires
        same_tokens(a, b),
        0 <= pos,
    ensures
        head(a, open, pos) == head(b, open, pos),
{
    assert(kind_at(a.tokens, pos) == kind_at(b.tokens, pos));
    assert(kind_at(a.tokens, pos + 1) == kind_at(b.tokens, pos + 1));
    assert(kind_at(a.tokens, pos + 2) == kind_at(b.tokens, pos + 2));
    assert(kind_at(a.tokens, pos + 3) == kind_at(b.tokens, pos + 3));
    assert(kind_at(a.tokens, pos + 4) == kind_at(b.tokens, pos + 4));
    if kind_at(a.tokens, pos + 1) == Some(TokenKind::Ident) {
        assert(token_text(a, pos + 1) == token_text(b, pos + 1));
    }
    if kind_at(a.tokens, pos + 3) == Some(TokenKind::Ident) {
        assert(token_text(a, pos + 3) == token_text(b, pos + 3));
    }
}

proof fn lemma_items_same(
    a: Source,
    b: Source,
    options: ParseOptions,
    scope: Scope,
    open: Option<usize>,
    pos: int,
    found: Seq<Declaration>,
)
    requires
        same_tokens(a, b),
        0 <= pos <= a.tokens.len(),
    ensures
        items(a, options, scope, open, pos, found) == items(b, options, scope, open, pos, found),
    decreases a.tokens.len() - pos, 2int,
{
    if pos < a.tokens.len() {
        lemma_same_kind(a.tokens, b.tokens, pos);
        if !(a.tokens[pos].kind is CloseBrace) {
            lemma_item_same(a, b, options, scope, open, pos);
            match item(a, options, scope, open, pos) {
                Step::Fail(_) => {},
                Step::Done(made, next) => {
                    if pos < next <= a.tokens.len() {
                        lemma_items_same(a, b, options, scope, open, next, with_item(found, made));
                    }
                },
            }
        }
    }
}

proof fn lemma_item_same(
    a: Source,
    b: Source,
    options: ParseOptions,
    scope: Scope,
    open: Option<usize>,
    pos: int,
)
    requires
        same_tokens(a, b),
        0 <= pos < a.tokens.len(),
    ensures
        item(a, options, scope, open, pos) == item(b, options, scope, open, pos),
    decreases a.tokens.len() - pos, 1int,
{
    lemma_attributes_same(a, b, open, pos, Seq::empty());
    lemma_attributes_quiet(a, open, pos, Seq::empty());
    match attributes(a, open, pos, Seq::empty()) {
        Step::Fail(_) => {},
        Step::Done(tags, after) => {
            assert(kind_at(a.tokens, after) == kind_at(b.tokens, after));
            if kind_at(a.tokens, after) == Some(TokenKind::Pub) {
                lemma_declaration_same(a, b, options, scope, open, after + 1, tags, Visibility::Public);
            } else {
                lemma_declaration_same(a, b, options, scope, open, after, tags, Visibility::Private);
            }
        },
    }
}

proof fn lemma_declaration_same(
    a: Source,
    b: Source,
    options: ParseOptions,
    scope: Scope,
    open: Option<usize>,
    pos: int,
    tags: Seq<Seq<char>>,
    visibility: Visibility,
)
    requires
        same_tokens(a, b),
        0 <= pos <= a.tokens.len(),
    ensures
        declaration(a, options, scope, open, pos, tags, visibility) == declaration(
            b,
            options,
            scope,
            open,
            pos,
            tags,
            visibility,
        ),
    decreases a.tokens.len() - pos, 0int,
{
    assert(kind_at(a.tokens, pos) == kind_at(b.tokens, pos));
    lemma_function_same(a, b, scope, open, pos, tags, visibility);
    lemma_import_same(a, b, open, pos, tags, visibility);
    lemma_data_type_same(a, b, open, pos, true, tags, visibility);
    lemma_data_type_same(a, b, open, pos, false, tags, visibility);
    lemma_head_same(a, b, open, pos);
    lemma_head_quiet(a, open, pos);
    match kind_at(a.tokens, pos) {
        Some(keyword) => {
            match head(a, open, pos) {
                Step::Fail(_) => {},
                Step::Done(_, brace) => {
                    lemma_items_same(
                        a,
                        b,
                        options,
                        crate::grammar::inner_scope(keyword),
                        Some(brace as usize),
                        brace + 1,
                        Seq::empty(),
                    );
                },
            }
        },
        None => {},
    }
}

/// The declarations of a text depend on its tokens alone: two sources with
/// the same tokens have the same declarations, or the same fault at the same
/// token. Layout and comments change nothing.
pub proof fn law_tokens_decide(a: Source, b: Source, options: ParseOptions)
    requires
        same_tokens(a, b),
    ensures
        declarations(a, options) == declarations(b, options),
{
    lemma_items_same(a, b, options, Scope::File, None, 0, Seq::empty());
}

/// Parsing again a text that was laid out anew gives the same tree: where
/// two texts have the same tokens and one of them parses, the other parses to
/// the same declarations.
pub proof fn law_layout_keeps_tree(first: Seq<char>, second: Seq<char>, options: ParseOptions)
    requires
        same_tokens(source_of(first), source_of(second)),
    ensures
        parsed(first, options) matches Ok(found) ==> parsed(second, options) == Ok::<
            Seq<Declaration>,
            crate::error::ParseErrorView,
        >(found),
        parsed(first, options) is Err ==> parsed(second, options) is Err,
{
    law_tokens_decide(source_of(first), source_of(second), options);
}

/// Every declaring token makes one declaration: where a text parses, the
/// number of declarations in its tree, nested ones included, is the number of
/// its tokens `struct`, `enum`, `trait`, `impl`, `fn` and `mod`, and of `use`
/// where imports are kept.
pub proof fn law_node_count(text: Seq<char>, options: ParseOptions)
    ensures
        parsed(text, options) matches Ok(found) ==> forest_size(found) == declaring(
            tokens_of(text),
            options,
            0,
            tokens_of(text).len() as int,
        ),
{
    let src = source_of(text);
    lemma_items_count(src, options, Scope::File, None, 0, Seq::empty());
    match items(src, options, Scope::File, None, 0, Seq::empty()) {
        Step::Fail(_) => {},
        Step::Done(all, next) => {
            law_file_is_read_whole(src, options, 0, Seq::empty());
        },
    }
}

/// Nothing is left over: a parse of the items of a file that succeeds ends
/// where the tokens end.
pub proof fn law_file_is_read_whole(src: Source, options: ParseOptions, pos: int, found: Seq<Declaration>)
    requires
        0 <= pos <= src.tokens.len(),
    ensures
        items(src, options, Scope::File, None, pos, found) matches Step::Done(_, next) ==> next
            == src.tokens.len(),
    decreases src.tokens.len() - pos,
{
    if pos < src.tokens.len() && !(src.tokens[pos].kind is CloseBrace) {
        match item(src, options, Scope::File, None, pos) {
            Step::Fail(_) => {},
            Step::Done(made, next) => {
                if pos < next <= src.tokens.len() {
                    law_file_is_read_whole(src, options, next, with_item(found, made));
                }
            },
        }
    }
}

/// Every declaration has a name: where a text that a machine can hold parses,
/// no declaration of its tree, at any depth, has the empty name.
pub proof fn law_names_not_empty(text: Seq<char>, options: ParseOptions)
    requires
        text.len() <= usize::MAX,
    ensures
        parsed(text, options) matches Ok(found) ==> forest_named(found),
{
    let src = source_of(text);
    lemma_tokens_fit(text);
    lemma_items_count(src, options, Scope::File, None, 0, Seq::empty());
}

/// The empty text parses, and has no declarations.
pub proof fn law_empty_text(options: ParseOptions)
    ensures
        parsed(Seq::empty(), options) == Ok::<Seq<Declaration>, crate::error::ParseErrorView>(
            Seq::empty(),
        ),
{
    assert(tokens_of(Seq::empty()) =~= Seq::empty());
}

/// An item is never empty: the parse of an item that succeeds ends after
/// where it started, and within the tokens.
pub proof fn law_item_advances(
    src: Source,
    options: ParseOptions,
    scope: Scope,
    open: Option<usize>,
    pos: int,
)
    requires
        0 <= pos < src.tokens.len(),
    ensures
        item(src, options, scope, open, pos) matches Step::Done(_, next) ==> pos < next
            <= src.tokens.len(),
{
    lemma_item_count(src, options, scope, open, pos);
}

/// What a text parses to is a readable tree: each declaration may stand
/// where it stands, its texts are what the grammar records, and it holds what
/// its kind holds.
pub proof fn law_parsed_is_readable(text: Seq<char>, options: ParseOptions)
    requires
        2 * text.len() <= usize::MAX,
    ensures
        parsed(text, options) matches Ok(found) ==> all_readable(found, options, Scope::File),
{
    lemma_declarations_readable(source_of(text), options);
}

/// The rendering of a readable tree parses to that tree.
pub proof fn law_readable_round_trip(nodes: Seq<Declaration>, options: ParseOptions)
    requires
        all_readable(nodes, options, Scope::File),
        rendered(nodes).len() <= usize::MAX,
    ensures
        parsed(rendered(nodes), options) == Ok::<Seq<Declaration>, crate::error::ParseErrorView>(
            nodes,
        ),
{
    lemma_readable_round_trip(nodes, options);
}

/// Parsing again what was rendered gives the same tree: where a text parses,
/// the rendering of its tree parses to that tree. The text is at most half as
/// long as a machine can hold, and the rendering can be held.
pub proof fn law_render_round_trip(text: Seq<char>, options: ParseOptions)
    requires
        2 * text.len() <= usize::MAX,
    ensures
        parsed(text, options) matches Ok(found) ==> (rendered(found).len() <= usize::MAX
            ==> parsed(rendered(found), options) == Ok::<
            Seq<Declaration>,
            crate::error::ParseErrorView,
        >(found)),
{
    law_parsed_is_readable(text, options);
    match parsed(text, options) {
        Ok(found) => {
            if rendered(found).len() <= usize::MAX {
                law_readable_round_trip(found, options);
            }
        },
        Err(_) => {},
    }
}

} // verus!
