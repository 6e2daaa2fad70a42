//! Lexical tokens and the byte-offset model that relates a token list to the
//! source text it was scanned from.
//!
//! Offsets are byte offsets into the UTF-8 encoding of the source, while the
//! lexer itself works character by character; `utf8_width` and `byte_len` give
//! the spec-level bridge between the two, and are proved to agree with
//! `vstd`'s UTF-8 model.

use vstd::prelude::*;
use vstd::utf8::{char_is_scalar, encode_scalar, encode_utf8};

use crate::syntax::SyntaxKind;
use crate::TextRange;

verus! {

/// A single lexical token: its kind, its verbatim text, and the half-open
/// byte range it covers in the source.
///
/// The text is owned rather than borrowed from the source buffer, so a token
/// outlives the text it was scanned from; the contracts tie its content to
/// the source (`text == source[range]`) instead of sharing storage.
#[derive(Debug, Clone, PartialEq, Eq)]
pub struct Token {
    pub kind: SyntaxKind,
    pub text: String,
    pub range: TextRange,
}

/// A token reduced to mathematical values: its kind, its text, and its byte
/// range.
pub ghost struct TokenModel {
    pub kind: SyntaxKind,
    pub text: Seq<char>,
    pub start: int,
    pub end: int,
}

pub open spec fn model(t: Token) -> TokenModel {
    TokenModel { kind: t.kind, text: t.text@, start: t.range.start as int, end: t.range.end as int }
}

pub open spec fn models(toks: Seq<Token>) -> Seq<TokenModel> {
    Seq::new(toks.len(), |i: int| model(toks[i]))
}

/// The kind and text of each modelled token.
pub open spec fn model_leaves(ms: Seq<TokenModel>) -> Seq<(SyntaxKind, Seq<char>)> {
    Seq::new(ms.len(), |i: int| (ms[i].kind, ms[i].text))
}

/// The number of bytes the UTF-8 encoding of `c` occupies.
pub open spec fn utf8_width(c: char) -> int {
    if (c as u32) < 0x80 {
        1
    } else if (c as u32) < 0x800 {
        2
    } else if (c as u32) < 0x10000 {
        3
    } else {
        4
    }
}

/// The number of bytes the UTF-8 encoding of `cs` occupies.
pub open spec fn byte_len(cs: Seq<char>) -> int
    decreases cs.len(),
{
    if cs.len() == 0 {
        0
    } else {
        utf8_width(cs[0]) + byte_len(cs.drop_first())
    }
}

/// The texts of all tokens, concatenated in order.
pub open spec fn concat_texts(toks: Seq<Token>) -> Seq<char>
    decreases toks.len(),
{
    if toks.len() == 0 {
        Seq::empty()
    } else {
        toks[0].text@ + concat_texts(toks.drop_first())
    }
}

/// The byte ranges of the tokens are contiguous, starting at `start` and
/// ending at `end`, and each token's range is as wide as its text.
pub open spec fn ranges_tile(toks: Seq<Token>, start: int, end: int) -> bool {
    &&& (toks.len() == 0 ==> start == end)
    &&& (toks.len() > 0 ==> toks[0].range.start == start
        && toks[toks.len() - 1].range.end == end)
    &&& (forall|i: int| 1 <= i < toks.len() ==> #[trigger] toks[i].range.start
        == toks[i - 1].range.end)
    &&& (forall|i: int| 0 <= i < toks.len() ==> #[trigger] toks[i].range.end
        == toks[i].range.start + byte_len(toks[i].text@))
}

pub proof fn lemma_utf8_width_is_encode_len(c: char)
    ensures
        utf8_width(c) == encode_scalar(c as u32).len(),
{
    char_is_scalar(c);
}

pub proof fn lemma_byte_len_is_utf8_len(cs: Seq<char>)
    ensures
        byte_len(cs) == encode_utf8(cs).len(),
    decreases cs.len(),
{
    if cs.len() == 0 {
    } else {
        lemma_utf8_width_is_encode_len(cs[0]);
        lemma_byte_len_is_utf8_len(cs.drop_first());
    }
}

pub proof fn lemma_byte_len_bounds(cs: Seq<char>)
    ensures
        cs.len() <= byte_len(cs) <= 4 * cs.len(),
    decreases cs.len(),
{
    if cs.len() > 0 {
        lemma_byte_len_bounds(cs.drop_first());
    }
}

pub proof fn lemma_byte_len_concat(a: Seq<char>, b: Seq<char>)
    ensures
        byte_len(a + b) == byte_len(a) + byte_len(b),
    decreases a.len(),
{
    if a.len() == 0 {
        assert(a + b =~= b);
    } else {
        assert((a + b).drop_first() =~= a.drop_first() + b);
        lemma_byte_len_concat(a.drop_first(), b);
    }
}

/// Splitting a sequence at `i` splits its byte length.
pub proof fn lemma_byte_len_split(cs: Seq<char>, i: int)
    requires
        0 <= i <= cs.len(),
    ensures
        byte_len(cs) == byte_len(cs.take(i)) + byte_len(cs.skip(i)),
{
    assert(cs =~= cs.take(i) + cs.skip(i));
    lemma_byte_len_concat(cs.take(i), cs.skip(i));
}

pub proof fn lemma_concat_texts_concat(a: Seq<Token>, b: Seq<Token>)
    ensures
        concat_texts(a + b) == concat_texts(a) + concat_texts(b),
    decreases a.len(),
{
    if a.len() == 0 {
        assert(a + b =~= b);
        assert(concat_texts(a) + concat_texts(b) =~= concat_texts(b));
    } else {
        assert((a + b).drop_first() =~= a.drop_first() + b);
        assert((a + b)[0] == a[0]);
        lemma_concat_texts_concat(a.drop_first(), b);
        assert(a[0].text@ + (concat_texts(a.drop_first()) + concat_texts(b)) =~= (a[0].text@
            + concat_texts(a.drop_first())) + concat_texts(b));
    }
}

pub proof fn lemma_byte_len_push(cs: Seq<char>, c: char)
    ensures
        byte_len(cs.push(c)) == byte_len(cs) + utf8_width(c),
{
    assert(cs.push(c) =~= cs + seq![c]);
    lemma_byte_len_concat(cs, seq![c]);
    assert(seq![c].drop_first() =~= Seq::<char>::empty());
    assert(seq![c][0] == c);
    assert(byte_len(Seq::<char>::empty()) == 0);
    assert(byte_len(seq![c]) == utf8_width(c));
}

pub proof fn lemma_concat_texts_push(toks: Seq<Token>, t: Token)
    ensures
        concat_texts(toks.push(t)) == concat_texts(toks) + t.text@,
    decreases toks.len(),
{
    if toks.len() == 0 {
        assert(toks.push(t).drop_first() =~= Seq::<Token>::empty());
        assert(toks.push(t)[0] == t);
        assert(concat_texts(toks.push(t)) == t.text@ + concat_texts(Seq::<Token>::empty()));
        assert(t.text@ + Seq::<char>::empty() =~= t.text@);
        assert(concat_texts(toks) + t.text@ =~= t.text@);
    } else {
        assert(toks.push(t).drop_first() =~= toks.drop_first().push(t));
        lemma_concat_texts_push(toks.drop_first(), t);
        assert(toks[0].text@ + (concat_texts(toks.drop_first()) + t.text@) =~= (toks[0].text@
            + concat_texts(toks.drop_first())) + t.text@);
    }
}

} // verus!
