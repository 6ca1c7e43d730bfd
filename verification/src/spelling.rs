//! How tokens are spelled, and why joined tokens read as the same tokens.

use crate::grammar::{gap, is_spaced, is_wordy, joined, token_text, Source};
use crate::token::{
    char_literal_end, comment_starts, is_space, is_word_char, lemma_quote_end_bounds,
    lemma_string_end_bounds, lemma_token_end_bounds, lemma_word_end_bounds, line_end, quote_end,
    string_end, token_at, token_end, token_kind, tokens_from, tokens_of, word_end, Token, TokenKind,
};
use vstd::prelude::*;

verus! {

/// A token by itself: its kind and its characters.
pub struct Lexeme {
    pub kind: TokenKind,
    pub text: Seq<char>,
}

/// The token at `pos` by itself.
pub open spec fn lexeme_at(src: Source, pos: int) -> Lexeme {
    Lexeme { kind: src.tokens[pos].kind, text: token_text(src, pos) }
}

/// The tokens of a source, each by itself.
pub open spec fn lexemes(src: Source) -> Seq<Lexeme> {
    Seq::new(src.tokens.len(), |pos: int| lexeme_at(src, pos))
}

/// The lexemes joined: their characters in order, with one space or nothing
/// between two of them as their kinds say.
pub open spec fn join_all(words: Seq<Lexeme>) -> Seq<char>
    decreases words.len(),
{
    if words.len() == 0 {
        Seq::empty()
    } else if words.len() == 1 {
        words[0].text
    } else {
        join_all(words.drop_last()) + gap(words[words.len() - 2].kind, words.last().kind)
            + words.last().text
    }
}

/// Whether the characters of the lexeme, taken as a text, are one token of
/// its kind and nothing else.
pub open spec fn stands_alone(word: Lexeme) -> bool {
    &&& word.text.len() > 0
    &&& !is_space(word.text[0])
    &&& !comment_starts(word.text, 0)
    &&& token_kind(word.text, 0) == word.kind
    &&& token_end(word.text, 0) == word.text.len()
    &&& !(word.kind is Unclosed)
}

/// Whether the character `c`, written directly after a token of this kind,
/// leaves the token as it is.
pub open spec fn may_follow(kind: TokenKind, c: char) -> bool {
    if is_wordy(kind) {
        !is_word_char(c) && c != '\''
    } else if kind is Punct {
        c != '>' && c != '/'
    } else if kind is Colon {
        c != ':'
    } else {
        true
    }
}

proof fn lemma_word_end_in_context(word: Seq<char>, before: Seq<char>, after: Seq<char>, j: int)
    requires
        0 <= j <= word.len(),
        word_end(word, j) == word.len(),
        after.len() > 0 ==> !is_word_char(after[0]),
    ensures
        word_end(before + word + after, before.len() + j) == before.len() + word.len(),
    decreases word.len() - j,
{
    let text = before + word + after;
    if j < word.len() {
        assert(text[before.len() + j] == word[j]);
        lemma_word_end_in_context(word, before, after, j + 1);
    } else if after.len() > 0 {
        assert(text[before.len() + j] == after[0]);
    }
}

proof fn lemma_string_end_in_context(
    word: Seq<char>,
    before: Seq<char>,
    after: Seq<char>,
    j: int,
)
    requires
        0 <= j,
        string_end(word, j) is Some,
    ensures
        string_end(before + word + after, before.len() + j) == Some(
            before.len() + string_end(word, j)->0,
        ),
    decreases word.len() - j,
{
    let text = before + word + after;
    assert(text[before.len() + j] == word[j]);
    if word[j] != '"' {
        if word[j] == '\\' && j + 1 < word.len() {
            lemma_string_end_in_context(word, before, after, j + 2);
        } else {
            lemma_string_end_in_context(word, before, after, j + 1);
        }
    }
}

proof fn lemma_quote_end_in_context(word: Seq<char>, before: Seq<char>, after: Seq<char>, j: int)
    requires
        0 <= j,
        quote_end(word, j) is Some,
    ensures
        quote_end(before + word + after, before.len() + j) == Some(
            before.len() + quote_end(word, j)->0,
        ),
    decreases word.len() - j,
{
    let text = before + word + after;
    assert(text[before.len() + j] == word[j]);
    if word[j] != '\'' {
        lemma_quote_end_in_context(word, before, after, j + 1);
    }
}

/// A lexeme that stands alone is the same token wherever it is written,
/// if what follows it may follow it.
pub proof fn lemma_token_in_context(word: Lexeme, before: Seq<char>, after: Seq<char>)
    requires
        stands_alone(word),
        after.len() > 0 ==> may_follow(word.kind, after[0]),
    ensures
        !is_space((before + word.text + after)[before.len() as int]),
        !comment_starts(before + word.text + after, before.len() as int),
        token_kind(before + word.text + after, before.len() as int) == word.kind,
        token_end(before + word.text + after, before.len() as int) == before.len()
            + word.text.len(),
{
    let w = word.text;
    let text = before + w + after;
    let i = before.len() as int;
    let c = w[0];
    assert(text[i] == c);
    assert(text.len() == i + w.len() + after.len());
    assert forall|k: int| 0 <= k < w.len() implies text[i + k] == w[k] by {}
    if after.len() > 0 {
        assert(text[i + w.len()] == after[0]);
    }
    lemma_word_end_bounds(w, 1);
    if is_word_char(c) {
        lemma_word_end_in_context(w, before, after, 1);
        assert(text.subrange(i, i + w.len()) =~= w.subrange(0, w.len() as int));
    } else if c == '"' {
        lemma_string_end_in_context(w, before, after, 1);
    } else if c == '\'' {
        match char_literal_end(w, 0) {
            Some(e) => {
                if 2 < w.len() && w[1] != '\\' && w[1] != '\'' && w[2] == '\'' {
                    assert(text[i + 1] == w[1]);
                    assert(text[i + 2] == w[2]);
                } else {
                    assert(text[i + 1] == w[1]);
                    lemma_quote_end_in_context(w, before, after, 3);
                }
            },
            None => {
                assert(word_end(w, 1) > 1);
                assert(is_word_char(w[1]));
                assert(text[i + 1] == w[1]);
                if w.len() > 2 {
                    lemma_chars_of_word(w, 1, 2);
                    assert(text[i + 2] == w[2]);
                }
                lemma_word_end_in_context(w, before, after, 1);
            },
        }
    } else {
        if w.len() > 1 {
            assert(text[i + 1] == w[1]);
        }
    }
}

/// Between a position and the end of the word that holds it stand word
/// characters only.
proof fn lemma_chars_of_word(text: Seq<char>, j: int, k: int)
    requires
        0 <= j <= k < word_end(text, j),
    ensures
        k < text.len(),
        is_word_char(text[k]),
    decreases k - j,
{
    if j < k {
        lemma_chars_of_word(text, j + 1, k);
    }
}

proof fn lemma_word_end_alone(text: Seq<char>, s: int, e: int, j: int)
    requires
        0 <= s <= j <= e <= text.len(),
        word_end(text, j) == e,
    ensures
        word_end(text.subrange(s, e), j - s) == e - s,
    decreases e - j,
{
    let sub = text.subrange(s, e);
    if j < e {
        assert(sub[j - s] == text[j]);
        lemma_word_end_bounds(text, j);
        lemma_word_end_alone(text, s, e, j + 1);
    }
}

proof fn lemma_string_end_alone(text: Seq<char>, s: int, e: int, j: int)
    requires
        0 <= s <= j,
        e <= text.len(),
        string_end(text, j) == Some(e),
    ensures
        string_end(text.subrange(s, e), j - s) == Some(e - s),
    decreases text.len() - j,
{
    let sub = text.subrange(s, e);
    lemma_string_end_bounds(text, j);
    assert(sub[j - s] == text[j]);
    if text[j] != '"' {
        if text[j] == '\\' && j + 1 < text.len() {
            lemma_string_end_bounds(text, j + 2);
            lemma_string_end_alone(text, s, e, j + 2);
        } else {
            lemma_string_end_bounds(text, j + 1);
            lemma_string_end_alone(text, s, e, j + 1);
        }
    }
}

proof fn lemma_quote_end_alone(text: Seq<char>, s: int, e: int, j: int)
    requires
        0 <= s <= j,
        e <= text.len(),
        quote_end(text, j) == Some(e),
    ensures
        quote_end(text.subrange(s, e), j - s) == Some(e - s),
    decreases text.len() - j,
{
    let sub = text.subrange(s, e);
    lemma_quote_end_bounds(text, j);
    assert(sub[j - s] == text[j]);
    if text[j] != '\'' {
        lemma_quote_end_bounds(text, j + 1);
        lemma_quote_end_alone(text, s, e, j + 1);
    }
}

/// Whether a token starts at `s` in the text.
pub open spec fn token_starts(text: Seq<char>, s: int) -> bool {
    0 <= s < text.len() && !is_space(text[s]) && !comment_starts(text, s)
}

/// A token of a text, taken out of the text, stands alone.
pub proof fn lemma_token_alone(text: Seq<char>, s: int)
    requires
        token_starts(text, s),
        !(token_kind(text, s) is Unclosed),
    ensures
        stands_alone(
            Lexeme { kind: token_kind(text, s), text: text.subrange(s, token_end(text, s)) },
        ),
{
    lemma_token_end_bounds(text, s);
    let e = token_end(text, s);
    let sub = text.subrange(s, e);
    let c = text[s];
    assert(sub[0] == c);
    assert forall|k: int| 0 <= k < e - s implies sub[k] == text[s + k] by {}
    if is_word_char(c) {
        lemma_word_end_alone(text, s, e, s + 1);
        assert(sub.subrange(0, e - s) =~= text.subrange(s, e));
    } else if c == '"' {
        lemma_string_end_alone(text, s, e, s + 1);
    } else if c == '\'' {
        match char_literal_end(text, s) {
            Some(_) => {
                if s + 2 < text.len() && text[s + 1] != '\\' && text[s + 1] != '\''
                    && text[s + 2] == '\'' {
                    assert(sub[1] == text[s + 1]);
                    assert(sub[2] == text[s + 2]);
                } else {
                    lemma_quote_end_bounds(text, s + 3);
                    assert(sub[1] == text[s + 1]);
                    lemma_quote_end_alone(text, s, e, s + 3);
                }
            },
            None => {
                lemma_chars_of_word(text, s + 1, s + 1);
                assert(sub[1] == text[s + 1]);
                if e - s > 2 {
                    lemma_chars_of_word(text, s + 1, s + 2);
                    assert(sub[2] == text[s + 2]);
                }
                lemma_word_end_alone(text, s, e, s + 1);
            },
        }
    } else {
        if e - s > 1 {
            assert(sub[1] == text[s + 1]);
        }
    }
}

/// Whether `token` is the token that starts at its start in the text.
pub open spec fn token_of(text: Seq<char>, token: Token) -> bool {
    token_starts(text, token.start as int) && token == token_at(text, token.start as int)
}

proof fn lemma_tokens_from_origin(text: Seq<char>, i: int)
    requires
        0 <= i,
        text.len() <= usize::MAX,
    ensures
        forall|k: int|
            0 <= k < tokens_from(text, i).len() ==> token_of(text, #[trigger] tokens_from(text, i)[k]),
    decreases text.len() - i,
{
    if i < text.len() {
        if is_space(text[i]) {
            lemma_tokens_from_origin(text, i + 1);
            assert(tokens_from(text, i) == tokens_from(text, i + 1));
        } else if comment_starts(text, i) {
            crate::token::lemma_line_end_bounds(text, i + 2);
            lemma_tokens_from_origin(text, line_end(text, i + 2));
            assert(tokens_from(text, i) == tokens_from(text, line_end(text, i + 2)));
        } else {
            lemma_token_end_bounds(text, i);
            let rest = tokens_from(text, token_end(text, i));
            lemma_tokens_from_origin(text, token_end(text, i));
            let all = tokens_from(text, i);
            assert(all == seq![token_at(text, i)] + rest);
            assert forall|k: int| 0 <= k < all.len() implies token_of(text, #[trigger] all[k]) by {
                if k > 0 {
                    assert(all[k] == rest[k - 1]);
                    assert(token_of(text, rest[k - 1]));
                } else {
                    assert(all[0] == token_at(text, i));
                    assert(all[0].start as int == i);
                }
            }
        }
    } else {
        assert(tokens_from(text, i).len() == 0);
    }
}

/// Every token of a text, but for an unclosed quote, stands alone once taken
/// out of the text.
pub proof fn lemma_lexemes_stand_alone(text: Seq<char>)
    requires
        text.len() <= usize::MAX,
    ensures
        forall|pos: int|
            0 <= pos < tokens_of(text).len() && !(tokens_of(text)[pos].kind is Unclosed)
                ==> stands_alone(#[trigger] lexeme_at(Source { text, tokens: tokens_of(text) }, pos)),
{
    lemma_tokens_from_origin(text, 0);
    let src = Source { text, tokens: tokens_of(text) };
    assert forall|pos: int|
        0 <= pos < tokens_of(text).len() && !(tokens_of(text)[pos].kind is Unclosed)
        implies stands_alone(#[trigger] lexeme_at(src, pos)) by {
        let token = tokens_of(text)[pos];
        assert(token_of(text, token));
        let s = token.start as int;
        lemma_token_end_bounds(text, s);
        lemma_token_alone(text, s);
    }
}

/// Whether every lexeme stands alone.
pub open spec fn all_alone(words: Seq<Lexeme>) -> bool {
    forall|k: int| 0 <= k < words.len() ==> stands_alone(#[trigger] words[k])
}

/// How many characters the first `k` lexemes take when joined.
pub open spec fn reach(words: Seq<Lexeme>, k: int) -> int {
    join_all(words.take(k)).len() as int
}

/// Where the lexeme `k` starts in the join: after the lexemes before it and
/// the gap.
pub open spec fn start_of(words: Seq<Lexeme>, k: int) -> int {
    if k <= 0 {
        0
    } else {
        reach(words, k) + gap(words[k - 1].kind, words[k].kind).len()
    }
}

proof fn lemma_join_step(words: Seq<Lexeme>, k: int)
    requires
        0 <= k < words.len(),
    ensures
        join_all(words.take(k + 1)) == (if k == 0 {
            words[0].text
        } else {
            join_all(words.take(k)) + gap(words[k - 1].kind, words[k].kind) + words[k].text
        }),
{
    let head = words.take(k + 1);
    assert(head.len() == k + 1);
    assert(head.last() == words[k]);
    if k > 0 {
        assert(head.drop_last() =~= words.take(k));
        assert(head[head.len() - 2] == words[k - 1]);
    } else {
        assert(head[0] == words[0]);
    }
}

proof fn lemma_join_prefix(words: Seq<Lexeme>, k: int)
    requires
        0 <= k <= words.len(),
    ensures
        reach(words, k) <= join_all(words).len(),
        join_all(words).take(reach(words, k)) == join_all(words.take(k)),
    decreases words.len() - k,
{
    if k == words.len() {
        assert(words.take(k) =~= words);
        assert(join_all(words).take(join_all(words).len() as int) =~= join_all(words));
    } else {
        lemma_join_step(words, k);
        lemma_join_prefix(words, k + 1);
        let longer = join_all(words.take(k + 1));
        let shorter = join_all(words.take(k));
        if k == 0 {
            assert(words.take(0).len() == 0);
            assert(shorter =~= Seq::<char>::empty());
        } else {
            assert(longer.take(shorter.len() as int) =~= shorter);
        }
        assert(join_all(words).take(shorter.len() as int) =~= join_all(words).take(
            longer.len() as int,
        ).take(shorter.len() as int));
        assert(join_all(words).take(shorter.len() as int) =~= shorter);
    }
}

/// Where the lexeme `k` stands in the join, and what follows it there.
proof fn lemma_join_places(words: Seq<Lexeme>, k: int)
    requires
        0 <= k < words.len(),
    ensures
        0 <= start_of(words, k),
        reach(words, k + 1) == start_of(words, k) + words[k].text.len(),
        reach(words, k + 1) <= join_all(words).len(),
        join_all(words).subrange(start_of(words, k), reach(words, k + 1)) == words[k].text,
        k + 1 == words.len() ==> reach(words, k + 1) == join_all(words).len(),
        k + 1 < words.len() && words[k + 1].text.len() > 0 ==> reach(words, k + 1) < join_all(
            words,
        ).len() && join_all(words)[reach(words, k + 1)] == (if is_spaced(
            words[k].kind,
            words[k + 1].kind,
        ) {
            ' '
        } else {
            words[k + 1].text[0]
        }),
{
    let text = join_all(words);
    lemma_join_step(words, k);
    lemma_join_prefix(words, k + 1);
    let upto = join_all(words.take(k + 1));
    assert(text.subrange(start_of(words, k), reach(words, k + 1)) =~= text.take(
        reach(words, k + 1),
    ).subrange(start_of(words, k), reach(words, k + 1)));
    assert(upto.subrange(start_of(words, k), reach(words, k + 1)) =~= words[k].text);
    if k + 1 == words.len() {
        assert(words.take(k + 1) =~= words);
    } else if words[k + 1].text.len() > 0 {
        lemma_join_step(words, k + 1);
        lemma_join_prefix(words, k + 2);
        let more = join_all(words.take(k + 2));
        let at = reach(words, k + 1);
        assert(more.len() > at);
        assert(text.take(more.len() as int)[at] == text[at]);
        assert(more[at] == (if is_spaced(words[k].kind, words[k + 1].kind) {
            ' '
        } else {
            words[k + 1].text[0]
        }));
    }
}

/// Where two tokens are joined without a space, the first character of the
/// second may follow the first.
proof fn lemma_first_char_may_follow(left: TokenKind, right: Lexeme)
    requires
        stands_alone(right),
        !is_spaced(left, right.kind),
    ensures
        may_follow(left, right.text[0]),
{
    lemma_word_end_bounds(right.text, 1);
}

/// Where the lexeme `k` starts in the join, or where the join ends if there
/// is no such lexeme.
pub open spec fn cursor(words: Seq<Lexeme>, k: int) -> int {
    if k < words.len() {
        start_of(words, k)
    } else {
        join_all(words).len() as int
    }
}

/// What the tokens of the join are from the lexeme `k` on: one token for each
/// lexeme, of its kind, at its place.
pub open spec fn relexed_from(words: Seq<Lexeme>, k: int) -> bool {
    let found = tokens_from(join_all(words), cursor(words, k));
    &&& found.len() == words.len() - k
    &&& forall|j: int|
        0 <= j < found.len() ==> (#[trigger] found[j]).kind == words[k + j].kind && found[j].start
            == start_of(words, k + j) && found[j].end == reach(words, k + j + 1)
}

proof fn lemma_relex_from(words: Seq<Lexeme>, k: int)
    requires
        all_alone(words),
        join_all(words).len() <= usize::MAX,
        0 <= k <= words.len(),
    ensures
        relexed_from(words, k),
    decreases words.len() - k,
{
    let text = join_all(words);
    if k < words.len() {
        let word = words[k];
        assert(stands_alone(word));
        lemma_join_places(words, k);
        let s = start_of(words, k);
        let e = reach(words, k + 1);
        let before = text.take(s);
        let after = text.skip(e);
        assert(text =~= before + word.text + after);
        if k + 1 < words.len() {
            assert(stands_alone(words[k + 1]));
            assert(after[0] == text[e]);
            if !is_spaced(word.kind, words[k + 1].kind) {
                lemma_first_char_may_follow(word.kind, words[k + 1]);
            }
        }
        lemma_token_in_context(word, before, after);
        lemma_relex_from(words, k + 1);
        let next = cursor(words, k + 1);
        let rest = tokens_from(text, next);
        assert(relexed_from(words, k + 1));
        assert(rest.len() == words.len() - (k + 1));
        assert(tokens_from(text, e) == rest) by {
            if k + 1 < words.len() && is_spaced(word.kind, words[k + 1].kind) {
                lemma_join_step(words, k + 1);
                assert(is_space(text[e]));
                assert(next == e + 1);
            } else if k + 1 < words.len() {
                assert(gap(word.kind, words[k + 1].kind).len() == 0);
                assert(next == e);
            }
        }
        let found = tokens_from(text, s);
        assert(s == cursor(words, k));
        assert(token_starts(text, s));
        assert(found == seq![token_at(text, s)] + rest);
        assert forall|j: int| 0 <= j < found.len() implies (#[trigger] found[j]).kind == words[k
            + j].kind && found[j].start == start_of(words, k + j) && found[j].end == reach(
            words,
            k + j + 1,
        ) by {
            if j > 0 {
                assert(found[j] == rest[j - 1]);
                assert(rest[j - 1].kind == words[(k + 1) + (j - 1)].kind);
            } else {
                assert(found[0] == token_at(text, s));
                assert(found[0].kind == word.kind);
                assert(found[0].start == s);
                assert(found[0].end == e);
            }
        }
    }
}

/// Joined tokens read as the same tokens: the tokens of the join of lexemes
/// that stand alone are these lexemes.
pub proof fn lemma_join_relexes(words: Seq<Lexeme>)
    requires
        all_alone(words),
        join_all(words).len() <= usize::MAX,
    ensures
        lexemes(Source { text: join_all(words), tokens: tokens_of(join_all(words)) }) == words,
{
    let text = join_all(words);
    let src = Source { text, tokens: tokens_of(text) };
    lemma_relex_from(words, 0);
    assert(relexed_from(words, 0));
    if words.len() == 0 {
        assert(text.len() == 0);
    }
    assert(cursor(words, 0) == 0);
    let found = tokens_from(text, 0);
    assert(found.len() == words.len());
    assert forall|j: int| 0 <= j < words.len() implies lexemes(src)[j] == words[j] by {
        lemma_join_places(words, j);
        let token = found[j];
        assert(token.kind == words[j].kind);
        assert(token.start as int == start_of(words, j));
        assert(token.end as int == reach(words, j + 1));
    }
    assert(lexemes(src) =~= words);
}

} // verus!
