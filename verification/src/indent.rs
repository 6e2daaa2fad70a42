//! The indentation rewriter: turns `Newline` tokens into `Newline`, `Indent`
//! and `Dedent` tokens by an off-side rule over a strictly increasing stack
//! of indentation widths, and isolates inconsistent dedents to a single
//! `Error` token per offending line.
//!
//! The rewriting is specified by the functional twin `rewrite_from`; the
//! executable pass is proved to produce exactly the stream and the messages
//! the twin prescribes. So that no source text is lost, a dedent that closes
//! several levels carries the newline's text on its last `Dedent` token only:
//! the earlier ones are zero-width, as are the dedents synthesized at the end
//! of input.

use vstd::prelude::*;

use crate::lexer::{classified_token, newline_shape, tokens_classified};
use crate::message::{DiagnosticKind, Message};
use crate::syntax::SyntaxKind;
use crate::token::{byte_len, concat_texts, model, models, ranges_tile, Token, TokenModel};
use crate::token::{lemma_byte_len_concat, lemma_concat_texts_concat, lemma_concat_texts_push};
use crate::TextRange;

verus! {

/// The texts of the modelled tokens, concatenated in order.
pub open spec fn concat_models(ms: Seq<TokenModel>) -> Seq<char>
    decreases ms.len(),
{
    if ms.len() == 0 {
        Seq::empty()
    } else {
        ms[0].text + concat_models(ms.drop_first())
    }
}

proof fn lemma_concat_models_push(ms: Seq<TokenModel>, m: TokenModel)
    ensures
        concat_models(ms.push(m)) == concat_models(ms) + m.text,
    decreases ms.len(),
{
    if ms.len() == 0 {
        assert(ms.push(m).drop_first() =~= Seq::<TokenModel>::empty());
        assert(ms.push(m)[0] == m);
        assert(concat_models(ms.push(m)) == m.text + concat_models(Seq::<TokenModel>::empty()));
        assert(m.text + Seq::<char>::empty() =~= m.text);
        assert(concat_models(ms) + m.text =~= m.text);
    } else {
        assert(ms.push(m).drop_first() =~= ms.drop_first().push(m));
        assert(ms.push(m)[0] == ms[0]);
        lemma_concat_models_push(ms.drop_first(), m);
        assert(ms[0].text + (concat_models(ms.drop_first()) + m.text) =~= (ms[0].text
            + concat_models(ms.drop_first())) + m.text);
    }
}

/// The index of the next `Newline` token at or after `j`, or the length of
/// the stream.
pub open spec fn line_end(ms: Seq<TokenModel>, j: int) -> int
    decreases ms.len() - j,
{
    if j < 0 || j >= ms.len() {
        ms.len() as int
    } else if ms[j].kind == SyntaxKind::Newline {
        j
    } else {
        line_end(ms, j + 1)
    }
}

proof fn lemma_line_end_bounds(ms: Seq<TokenModel>, j: int)
    requires
        0 <= j <= ms.len(),
    ensures
        j <= line_end(ms, j) <= ms.len(),
    decreases ms.len() - j,
{
    if j < ms.len() && ms[j].kind != SyntaxKind::Newline {
        lemma_line_end_bounds(ms, j + 1);
    }
}

/// A scan that stopped at the end of input or at a `Newline`, having passed
/// none, found the line's end.
proof fn lemma_line_end_char(ms: Seq<TokenModel>, j0: int, j: int)
    requires
        0 <= j0 <= j <= ms.len(),
        forall|k: int| j0 <= k < j ==> (#[trigger] ms[k].kind) != SyntaxKind::Newline,
        j == ms.len() || ms[j].kind == SyntaxKind::Newline,
    ensures
        line_end(ms, j0) == j,
    decreases j - j0,
{
    if j0 < j {
        lemma_line_end_char(ms, j0 + 1, j);
    }
}

/// A zero-width `Dedent` token at position `p`.
pub open spec fn zero_dedent(p: int) -> TokenModel {
    TokenModel { kind: SyntaxKind::Dedent, text: Seq::empty(), start: p, end: p }
}

/// The zero-width dedents that close every open indentation level at the end
/// of input.
pub open spec fn eof_dedents(stack: Seq<int>, endpos: int) -> Seq<TokenModel>
    decreases stack.len(),
{
    if stack.len() <= 1 {
        Seq::empty()
    } else {
        seq![zero_dedent(endpos)] + eof_dedents(stack.drop_last(), endpos)
    }
}

/// The rewriter's result: the processed token stream and the ranges of the
/// inconsistently dedented lines.
pub ghost struct Rewritten {
    pub toks: Seq<TokenModel>,
    pub msgs: Seq<(int, int)>,
}

pub open spec fn with_tok(m: TokenModel, r: Rewritten) -> Rewritten {
    Rewritten { toks: seq![m] + r.toks, msgs: r.msgs }
}

/// The functional twin of the rewriter, from position `i` with the given
/// indentation stack.
///
/// A `Newline` whose leading width equals the top of the stack passes
/// through; a greater width pushes and becomes an `Indent`; a smaller width
/// pops levels, emitting zero-width `Dedent`s and, for the level that matches,
/// a `Dedent` carrying the newline's text. A width that matches no level is an
/// inconsistent dedent: the whole line collapses into one `Error` token, a
/// message is recorded, and the stack is left as it was.
pub open spec fn rewrite_from(ms: Seq<TokenModel>, i: int, stack: Seq<int>, endpos: int) -> Rewritten
    decreases ms.len() - i, stack.len(), 1int,
{
    if i < 0 || i >= ms.len() {
        Rewritten { toks: eof_dedents(stack, endpos), msgs: Seq::empty() }
    } else {
        let t = ms[i];
        if t.kind != SyntaxKind::Newline {
            with_tok(t, rewrite_from(ms, i + 1, stack, endpos))
        } else {
            let w = t.text.len() - 1;
            let top = if stack.len() > 0 {
                stack.last()
            } else {
                0
            };
            if w == top {
                with_tok(t, rewrite_from(ms, i + 1, stack, endpos))
            } else if w > top {
                with_tok(
                    TokenModel { kind: SyntaxKind::Indent, text: t.text, start: t.start, end: t.end },
                    rewrite_from(ms, i + 1, stack.push(w), endpos),
                )
            } else if stack.len() <= 1 {
                with_tok(t, rewrite_from(ms, i + 1, stack, endpos))
            } else {
                let popped = stack.drop_last();
                let newtop = popped.last();
                if w < newtop {
                    with_tok(zero_dedent(t.start), rewrite_from(ms, i, popped, endpos))
                } else if w == newtop {
                    with_tok(
                        TokenModel {
                            kind: SyntaxKind::Dedent,
                            text: t.text,
                            start: t.start,
                            end: t.end,
                        },
                        rewrite_from(ms, i + 1, popped, endpos),
                    )
                } else {
                    let j0 = line_end(ms, i + 1);
                    let j = if j0 < i + 1 {
                        i + 1
                    } else if j0 > ms.len() {
                        ms.len() as int
                    } else {
                        j0
                    };
                    let err = TokenModel {
                        kind: SyntaxKind::Error,
                        text: concat_models(ms.subrange(i, j)),
                        start: t.start,
                        end: ms[j - 1].end,
                    };
                    let r = rewrite_from(ms, j, stack, endpos);
                    Rewritten { toks: seq![err] + r.toks, msgs: seq![(err.start, err.end)] + r.msgs }
                }
            }
        }
    }
}

/// The number of tokens of kind `k` in the stream.
pub open spec fn count_kind(toks: Seq<Token>, k: SyntaxKind) -> int
    decreases toks.len(),
{
    if toks.len() == 0 {
        0
    } else {
        (if toks[0].kind == k {
            1int
        } else {
            0int
        }) + count_kind(toks.drop_first(), k)
    }
}

proof fn lemma_count_kind_push(toks: Seq<Token>, t: Token, k: SyntaxKind)
    ensures
        count_kind(toks.push(t), k) == count_kind(toks, k) + (if t.kind == k {
            1int
        } else {
            0int
        }),
    decreases toks.len(),
{
    if toks.len() == 0 {
        assert(toks.push(t).drop_first() =~= Seq::<Token>::empty());
        assert(toks.push(t)[0] == t);
        assert(count_kind(Seq::<Token>::empty(), k) == 0);
    } else {
        assert(toks.push(t).drop_first() =~= toks.drop_first().push(t));
        assert(toks.push(t)[0] == toks[0]);
        lemma_count_kind_push(toks.drop_first(), t, k);
    }
}

proof fn lemma_count_kind_nonneg(toks: Seq<Token>, k: SyntaxKind)
    ensures
        0 <= count_kind(toks, k) <= toks.len(),
    decreases toks.len(),
{
    if toks.len() > 0 {
        lemma_count_kind_nonneg(toks.drop_first(), k);
    }
}

/// At every position of the stream, the `Indent`s seen so far are at least as
/// many as the `Dedent`s.
pub open spec fn indent_balanced_prefixes(toks: Seq<Token>) -> bool {
    forall|p: int|
        0 <= p <= toks.len() ==> count_kind(#[trigger] toks.take(p), SyntaxKind::Indent)
            >= count_kind(toks.take(p), SyntaxKind::Dedent)
}

/// Pushing a token keeps every prefix balanced, provided a pushed `Dedent`
/// closes an `Indent` that is already open.
proof fn lemma_balanced_push(toks: Seq<Token>, t: Token)
    requires
        indent_balanced_prefixes(toks),
        t.kind == SyntaxKind::Dedent ==> count_kind(toks, SyntaxKind::Indent) - count_kind(
            toks,
            SyntaxKind::Dedent,
        ) >= 1,
    ensures
        indent_balanced_prefixes(toks.push(t)),
{
    lemma_count_kind_push(toks, t, SyntaxKind::Indent);
    lemma_count_kind_push(toks, t, SyntaxKind::Dedent);
    assert forall|p: int|
        0 <= p <= toks.push(t).len() implies count_kind(
        #[trigger] toks.push(t).take(p),
        SyntaxKind::Indent,
    ) >= count_kind(toks.push(t).take(p), SyntaxKind::Dedent) by {
        if p <= toks.len() {
            assert(toks.push(t).take(p) =~= toks.take(p));
        } else {
            assert(toks.push(t).take(p) =~= toks.push(t));
            assert(toks.take(toks.len() as int) =~= toks);
            assert(count_kind(toks, SyntaxKind::Indent) >= count_kind(toks, SyntaxKind::Dedent));
        }
    }
}

/// No token of the stream is an `Identifier` spelled like a keyword.
pub open spec fn idents_ok(toks: Seq<Token>) -> bool {
    forall|k: int|
        0 <= k < toks.len() ==> ((#[trigger] toks[k].kind) == SyntaxKind::Identifier
            ==> !crate::lexer::is_reserved_spelling(toks[k].text@))
}

/// Over the models of real tokens, the two concatenations agree.
proof fn lemma_concat_models_is_texts(toks: Seq<Token>)
    ensures
        concat_models(models(toks)) == concat_texts(toks),
    decreases toks.len(),
{
    if toks.len() == 0 {
    } else {
        assert(models(toks)[0] == model(toks[0]));
        assert(models(toks).drop_first() =~= models(toks.drop_first()));
        lemma_concat_models_is_texts(toks.drop_first());
    }
}

/// The byte position just after the first `i` tokens.
pub open spec fn prefix_end(ms: Seq<TokenModel>, i: int) -> int {
    if i <= 0 {
        0
    } else {
        ms[i - 1].end
    }
}

/// The position where the end-of-input dedents sit.
pub open spec fn end_of(ms: Seq<TokenModel>) -> int {
    if ms.len() == 0 {
        0
    } else {
        ms.last().end
    }
}

/// The stack of indentation widths, as mathematical integers.
pub open spec fn int_stack(s: Seq<usize>) -> Seq<int> {
    Seq::new(s.len(), |k: int| s[k] as int)
}

/// The byte ranges of the recorded messages.
pub open spec fn msg_ranges<FileId>(msgs: Seq<Message<FileId>>) -> Seq<(int, int)> {
    Seq::new(msgs.len(), |k: int| (msgs[k].range.start as int, msgs[k].range.end as int))
}

proof fn lemma_models_push(old: Seq<Token>, t: Token)
    ensures
        models(old.push(t)) == models(old).push(model(t)),
{
    assert(models(old.push(t)) =~= models(old).push(model(t)));
}

/// Consuming the head of the remaining rewrite moves it into the prefix.
proof fn lemma_shift_tok(
    whole: Seq<TokenModel>,
    pre: Seq<TokenModel>,
    m: TokenModel,
    rest: Seq<TokenModel>,
)
    requires
        whole == pre + (seq![m] + rest),
    ensures
        whole == pre.push(m) + rest,
{
    assert(pre + (seq![m] + rest) =~= pre.push(m) + rest);
}

proof fn lemma_shift_msg(
    whole: Seq<(int, int)>,
    pre: Seq<(int, int)>,
    m: (int, int),
    rest: Seq<(int, int)>,
)
    requires
        whole == pre + (seq![m] + rest),
    ensures
        whole == pre.push(m) + rest,
{
    assert(pre + (seq![m] + rest) =~= pre.push(m) + rest);
}

/// Appending a token whose range starts where the tiling ended extends the
/// tiling to that token's end.
proof fn lemma_append_tile(old: Seq<Token>, t: Token, pos: int)
    requires
        ranges_tile(old, 0, pos),
        t.range.start == pos,
        t.range.end == pos + byte_len(t.text@),
    ensures
        ranges_tile(old.push(t), 0, t.range.end as int),
{
    let new = old.push(t);
    assert(new[new.len() - 1] == t);
    assert forall|k: int| 1 <= k < new.len() implies #[trigger] new[k].range.start == new[k
        - 1].range.end by {
        if k < new.len() - 1 {
            assert(new[k] == old[k]);
            assert(new[k - 1] == old[k - 1]);
        } else {
            assert(new[k] == t);
            if old.len() > 0 {
                assert(new[k - 1] == old[old.len() - 1]);
                assert(old[old.len() - 1].range.end == pos);
            }
        }
    }
    assert forall|k: int| 0 <= k < new.len() implies #[trigger] new[k].range.end
        == new[k].range.start + byte_len(new[k].text@) by {
        if k < new.len() - 1 {
            assert(new[k] == old[k]);
            assert(old[k].range.end == old[k].range.start + byte_len(old[k].text@));
        } else {
            assert(new[k] == t);
        }
    }
    if old.len() > 0 {
        assert(new[0] == old[0]);
    }
}

proof fn lemma_idents_push(old: Seq<Token>, t: Token)
    requires
        idents_ok(old),
        t.kind == SyntaxKind::Identifier ==> !crate::lexer::is_reserved_spelling(t.text@),
    ensures
        idents_ok(old.push(t)),
{
    let new = old.push(t);
    assert forall|k: int| 0 <= k < new.len() implies ((#[trigger] new[k].kind)
        == SyntaxKind::Identifier ==> !crate::lexer::is_reserved_spelling(new[k].text@)) by {
        if k < new.len() - 1 {
            assert(new[k] == old[k]);
        } else {
            assert(new[k] == t);
        }
    }
}

/// Duplicates a token.
fn clone_token(t: &Token) -> (r: Token)
    ensures
        r == *t,
{
    let text = t.text.clone();
    Token { kind: t.kind, text, range: t.range }
}

/// The invariant-relevant shape of the growing output: its texts cover the
/// consumed input, its ranges tile the bytes up to the consumed position, its
/// prefixes are balanced, and its identifiers are no keywords.
pub open spec fn out_wf(out: Seq<Token>, ms: Seq<TokenModel>, toks_in: Seq<Token>, i: int) -> bool {
    &&& concat_texts(out) == concat_texts(toks_in.take(i))
    &&& ranges_tile(out, 0, prefix_end(ms, i))
    &&& indent_balanced_prefixes(out)
    &&& idents_ok(out)
}

/// The facts about the input stream that every step relies on.
pub open spec fn input_wf(ms: Seq<TokenModel>, toks_in: Seq<Token>) -> bool {
    &&& ms == models(toks_in)
    &&& tokens_classified(toks_in)
    &&& forall|k: int| 0 <= k < ms.len() ==> (#[trigger] ms[k]).start == prefix_end(ms, k)
    &&& forall|k: int|
        0 <= k < ms.len() ==> (#[trigger] ms[k]).end == ms[k].start + byte_len(ms[k].text)
}

/// Copies the current token into the output unchanged.
#[verifier::rlimit(60)]
fn emit_plain(tokens: &Vec<Token>, out: &mut Vec<Token>, i: usize, Ghost(ms): Ghost<
    Seq<TokenModel>,
>)
    requires
        input_wf(ms, tokens@),
        i < tokens@.len(),
        out_wf(old(out)@, ms, tokens@, i as int),
    ensures
        final(out)@ == old(out)@.push(tokens@[i as int]),
        models(final(out)@) == models(old(out)@).push(ms[i as int]),
        out_wf(final(out)@, ms, tokens@, i as int + 1),
        count_kind(final(out)@, SyntaxKind::Indent) == count_kind(old(out)@, SyntaxKind::Indent),
        count_kind(final(out)@, SyntaxKind::Dedent) == count_kind(old(out)@, SyntaxKind::Dedent),
{
    let tok = clone_token(&tokens[i]);
    let ghost gtok = tok;
    let ghost old_out = out@;
    out.push(tok);
    proof {
        assert(gtok == tokens@[i as int]);
        assert(ms[i as int] == model(tokens@[i as int]));
        assert(classified_token(tokens@[i as int]));
        lemma_models_push(old_out, gtok);
        assert(tokens@.take(i as int + 1) =~= tokens@.take(i as int).push(tokens@[i as int]));
        lemma_concat_texts_push(tokens@.take(i as int), tokens@[i as int]);
        lemma_concat_texts_push(old_out, gtok);
        lemma_append_tile(old_out, gtok, prefix_end(ms, i as int));
        lemma_idents_push(old_out, gtok);
        lemma_balanced_push(old_out, gtok);
        lemma_count_kind_push(old_out, gtok, SyntaxKind::Indent);
        lemma_count_kind_push(old_out, gtok, SyntaxKind::Dedent);
    }
}

/// Emits the current `Newline` token as an `Indent` or `Dedent` copy carrying
/// the newline's text.
#[verifier::rlimit(60)]
fn emit_rewritten(
    tokens: &Vec<Token>,
    out: &mut Vec<Token>,
    i: usize,
    kind: SyntaxKind,
    Ghost(ms): Ghost<Seq<TokenModel>>,
)
    requires
        input_wf(ms, tokens@),
        i < tokens@.len(),
        kind == SyntaxKind::Indent || kind == SyntaxKind::Dedent,
        out_wf(old(out)@, ms, tokens@, i as int),
        kind == SyntaxKind::Dedent ==> count_kind(old(out)@, SyntaxKind::Indent) - count_kind(
            old(out)@,
            SyntaxKind::Dedent,
        ) >= 1,
    ensures
        models(final(out)@) == models(old(out)@).push(
            TokenModel {
                kind,
                text: ms[i as int].text,
                start: ms[i as int].start,
                end: ms[i as int].end,
            },
        ),
        out_wf(final(out)@, ms, tokens@, i as int + 1),
        count_kind(final(out)@, SyntaxKind::Indent) == count_kind(old(out)@, SyntaxKind::Indent)
            + (if kind == SyntaxKind::Indent {
            1int
        } else {
            0int
        }),
        count_kind(final(out)@, SyntaxKind::Dedent) == count_kind(old(out)@, SyntaxKind::Dedent)
            + (if kind == SyntaxKind::Dedent {
            1int
        } else {
            0int
        }),
{
    let text = tokens[i].text.clone();
    let tok = Token { kind, text, range: tokens[i].range };
    let ghost gtok = tok;
    let ghost old_out = out@;
    out.push(tok);
    proof {
        assert(ms[i as int] == model(tokens@[i as int]));
        lemma_models_push(old_out, gtok);
        assert(tokens@.take(i as int + 1) =~= tokens@.take(i as int).push(tokens@[i as int]));
        lemma_concat_texts_push(tokens@.take(i as int), tokens@[i as int]);
        lemma_concat_texts_push(old_out, gtok);
        lemma_append_tile(old_out, gtok, prefix_end(ms, i as int));
        lemma_idents_push(old_out, gtok);
        lemma_balanced_push(old_out, gtok);
        lemma_count_kind_push(old_out, gtok, SyntaxKind::Indent);
        lemma_count_kind_push(old_out, gtok, SyntaxKind::Dedent);
    }
}

/// Emits a zero-width `Dedent` at position `p`, which must be where the
/// tiling currently ends.
#[verifier::rlimit(60)]
fn emit_zero_dedent(out: &mut Vec<Token>, p: usize, Ghost(ms): Ghost<Seq<TokenModel>>, Ghost(
    toks_in,
): Ghost<Seq<Token>>, Ghost(i): Ghost<int>)
    requires
        out_wf(old(out)@, ms, toks_in, i),
        p as int == prefix_end(ms, i),
        count_kind(old(out)@, SyntaxKind::Indent) - count_kind(old(out)@, SyntaxKind::Dedent) >= 1,
    ensures
        models(final(out)@) == models(old(out)@).push(zero_dedent(p as int)),
        out_wf(final(out)@, ms, toks_in, i),
        count_kind(final(out)@, SyntaxKind::Indent) == count_kind(old(out)@, SyntaxKind::Indent),
        count_kind(final(out)@, SyntaxKind::Dedent) == count_kind(old(out)@, SyntaxKind::Dedent)
            + 1,
{
    let tok = Token {
        kind: SyntaxKind::Dedent,
        text: String::new(),
        range: TextRange { start: p, end: p },
    };
    let ghost gtok = tok;
    let ghost old_out = out@;
    out.push(tok);
    proof {
        assert(model(gtok) == zero_dedent(p as int));
        lemma_models_push(old_out, gtok);
        lemma_concat_texts_push(old_out, gtok);
        assert(concat_texts(old_out) + gtok.text@ =~= concat_texts(old_out));
        assert(byte_len(gtok.text@) == 0);
        lemma_append_tile(old_out, gtok, prefix_end(ms, i));
        lemma_idents_push(old_out, gtok);
        lemma_balanced_push(old_out, gtok);
        lemma_count_kind_push(old_out, gtok, SyntaxKind::Indent);
        lemma_count_kind_push(old_out, gtok, SyntaxKind::Dedent);
    }
}

/// Collapses the line that starts with the `Newline` at `i` into a single
/// `Error` token, records an `InconsistentDedent` message for its range, and
/// returns the index of the next `Newline`.
#[verifier::rlimit(100)]
fn emit_error_line<FileId: Copy>(
    file_id: FileId,
    tokens: &Vec<Token>,
    out: &mut Vec<Token>,
    msgs: &mut Vec<Message<FileId>>,
    i: usize,
    Ghost(ms): Ghost<Seq<TokenModel>>,
) -> (i2: usize)
    requires
        input_wf(ms, tokens@),
        i < tokens@.len(),
        ms[i as int].kind == SyntaxKind::Newline,
        out_wf(old(out)@, ms, tokens@, i as int),
    ensures
        i < i2 <= tokens@.len(),
        i2 as int == line_end(ms, i as int + 1),
        models(final(out)@) == models(old(out)@).push(
            TokenModel {
                kind: SyntaxKind::Error,
                text: concat_models(ms.subrange(i as int, i2 as int)),
                start: ms[i as int].start,
                end: ms[i2 as int - 1].end,
            },
        ),
        out_wf(final(out)@, ms, tokens@, i2 as int),
        count_kind(final(out)@, SyntaxKind::Indent) == count_kind(old(out)@, SyntaxKind::Indent),
        count_kind(final(out)@, SyntaxKind::Dedent) == count_kind(old(out)@, SyntaxKind::Dedent),
        final(msgs)@ == old(msgs)@.push(
            Message {
                file_id,
                kind: DiagnosticKind::InconsistentDedent,
                range: TextRange {
                    start: final(out)@.last().range.start,
                    end: final(out)@.last().range.end,
                },
            },
        ),
        final(out)@.last().range.start as int == ms[i as int].start,
        final(out)@.last().range.end as int == ms[i2 as int - 1].end,
{
    let n = tokens.len();
    let start_r = tokens[i].range.start;
    let mut end_r = tokens[i].range.end;
    let mut text = tokens[i].text.clone();
    let mut i2 = i + 1;
    proof {
        assert(ms[i as int] == model(tokens@[i as int]));
        assert(ms.subrange(i as int, i as int + 1) =~= seq![ms[i as int]]);
        assert(seq![ms[i as int]].drop_first() =~= Seq::<TokenModel>::empty());
        assert(seq![ms[i as int]][0] == ms[i as int]);
        assert(concat_models(Seq::<TokenModel>::empty()) == Seq::<char>::empty());
        assert(concat_models(seq![ms[i as int]]) == ms[i as int].text + concat_models(
            seq![ms[i as int]].drop_first(),
        ));
        assert(concat_models(ms.subrange(i as int, i as int + 1)) == ms[i as int].text + Seq::<
            char,
        >::empty());
        assert(ms[i as int].text + Seq::<char>::empty() =~= ms[i as int].text);
    }
    while i2 < n && tokens[i2].kind != SyntaxKind::Newline
        invariant
            i < n,
            i + 1 <= i2 <= n,
            n == tokens@.len(),
            input_wf(ms, tokens@),
            forall|k: int| i + 1 <= k < i2 ==> (#[trigger] ms[k]).kind != SyntaxKind::Newline,
            text@ == concat_models(ms.subrange(i as int, i2 as int)),
            end_r as int == ms[i2 - 1].end,
            start_r as int == ms[i as int].start,
            end_r as int == start_r as int + byte_len(text@),
        decreases n - i2,
    {
        proof {
            assert(ms[i2 as int] == model(tokens@[i2 as int]));
            assert(ms.subrange(i as int, i2 as int + 1) =~= ms.subrange(i as int, i2 as int).push(
                ms[i2 as int],
            ));
            lemma_concat_models_push(ms.subrange(i as int, i2 as int), ms[i2 as int]);
            lemma_byte_len_concat(concat_models(ms.subrange(i as int, i2 as int)), ms[i2 as int].text);
            assert(ms[i2 as int].start == prefix_end(ms, i2 as int));
        }
        text.append(tokens[i2].text.as_str());
        end_r = tokens[i2].range.end;
        i2 = i2 + 1;
    }
    proof {
        if i2 < n {
            assert(ms[i2 as int] == model(tokens@[i2 as int]));
        }
        lemma_line_end_char(ms, i as int + 1, i2 as int);
    }
    let tok = Token { kind: SyntaxKind::Error, text, range: TextRange { start: start_r, end: end_r } };
    let msg = Message {
        file_id,
        kind: DiagnosticKind::InconsistentDedent,
        range: TextRange { start: start_r, end: end_r },
    };
    let ghost gtok = tok;
    let ghost old_out = out@;
    out.push(tok);
    msgs.push(msg);
    proof {
        let j = i2 as int;
        lemma_models_push(old_out, gtok);
        assert(tokens@.take(j) =~= tokens@.take(i as int) + tokens@.subrange(i as int, j));
        lemma_concat_texts_concat(tokens@.take(i as int), tokens@.subrange(i as int, j));
        assert(models(tokens@.subrange(i as int, j)) =~= ms.subrange(i as int, j));
        lemma_concat_models_is_texts(tokens@.subrange(i as int, j));
        assert(gtok.text@ == concat_texts(tokens@.subrange(i as int, j)));
        lemma_concat_texts_push(old_out, gtok);
        lemma_append_tile(old_out, gtok, prefix_end(ms, i as int));
        lemma_idents_push(old_out, gtok);
        lemma_balanced_push(old_out, gtok);
        lemma_count_kind_push(old_out, gtok, SyntaxKind::Indent);
        lemma_count_kind_push(old_out, gtok, SyntaxKind::Dedent);
    }
    i2
}

/// Processes indentation for a given vector of tokens by inserting indent and
/// dedent tokens where appropriate and returning a new vector with these
/// changes, together with a message for every inconsistently dedented line.
///
/// The output is exactly what the functional twin `rewrite_from` prescribes;
/// in particular the concatenated token texts and the tiling of the byte
/// ranges are unchanged, every prefix of the output has at least as many
/// `Indent`s as `Dedent`s, and the two counts are equal over the whole
/// stream.
#[verifier::rlimit(100)]
pub fn process_indents<FileId: Copy>(file_id: FileId, tokens: Vec<Token>) -> (res: (
    Vec<Token>,
    Vec<Message<FileId>>,
))
    requires
        tokens_classified(tokens@),
        ranges_tile(tokens@, 0, byte_len(concat_texts(tokens@))),
    ensures
        ({
            let r = rewrite_from(models(tokens@), 0, seq![0int], end_of(models(tokens@)));
            &&& models(res.0@) == r.toks
            &&& res.1@.len() == r.msgs.len()
            &&& forall|k: int|
                0 <= k < r.msgs.len() ==> (#[trigger] res.1@[k]).kind
                    == DiagnosticKind::InconsistentDedent && res.1@[k].file_id == file_id
                    && res.1@[k].range.start as int == r.msgs[k].0 && res.1@[k].range.end as int
                    == r.msgs[k].1
        }),
        concat_texts(res.0@) == concat_texts(tokens@),
        ranges_tile(res.0@, 0, byte_len(concat_texts(tokens@))),
        indent_balanced_prefixes(res.0@),
        count_kind(res.0@, SyntaxKind::Indent) == count_kind(res.0@, SyntaxKind::Dedent),
        idents_ok(res.0@),
{
    let ghost ms = models(tokens@);
    let ghost endpos = end_of(ms);
    let ghost target = rewrite_from(ms, 0, seq![0int], endpos);
    let ghost total = byte_len(concat_texts(tokens@));

    let n = tokens.len();
    let mut out: Vec<Token> = Vec::new();
    let mut msgs: Vec<Message<FileId>> = Vec::new();
    let mut stack: Vec<usize> = Vec::new();
    stack.push(0);
    let mut i: usize = 0;

    proof {
        assert(int_stack(stack@) =~= seq![0int]);
        assert(models(out@) =~= Seq::<TokenModel>::empty());
        assert(msg_ranges(msgs@) =~= Seq::<(int, int)>::empty());
        assert(target.toks =~= models(out@) + rewrite_from(ms, 0, int_stack(stack@), endpos).toks);
        assert(target.msgs =~= msg_ranges(msgs@) + rewrite_from(
            ms,
            0,
            int_stack(stack@),
            endpos,
        ).msgs);
        assert(concat_texts(tokens@.take(0)) =~= Seq::<char>::empty());
        assert forall|k: int| 0 <= k < ms.len() implies (#[trigger] ms[k]).start == prefix_end(
            ms,
            k,
        ) by {
            assert(ms[k] == model(tokens@[k]));
            if k > 0 {
                assert(ms[k - 1] == model(tokens@[k - 1]));
                assert(tokens@[k].range.start == tokens@[k - 1].range.end);
            }
        }
        assert forall|k: int| 0 <= k < ms.len() implies (#[trigger] ms[k]).end == ms[k].start
            + byte_len(ms[k].text) by {
            assert(ms[k] == model(tokens@[k]));
            assert(tokens@[k].range.end == tokens@[k].range.start + byte_len(tokens@[k].text@));
        }
        if ms.len() > 0 {
            assert(ms[ms.len() - 1] == model(tokens@[tokens@.len() - 1]));
            assert(endpos == total);
        }
    }

    while i < n
        invariant
            i <= n,
            n == tokens@.len(),
            input_wf(ms, tokens@),
            endpos == end_of(ms),
            total == byte_len(concat_texts(tokens@)),
            target == rewrite_from(ms, 0, seq![0int], endpos),
            ms.len() > 0 ==> endpos == total,
            ms.len() == 0 ==> endpos == 0 && total == 0,
            stack@.len() >= 1,
            stack@[0] == 0,
            forall|k: int| 0 <= k < stack@.len() - 1 ==> #[trigger] (stack@[k]) < stack@[k + 1],
            target.toks == models(out@) + rewrite_from(ms, i as int, int_stack(stack@), endpos).toks,
            target.msgs == msg_ranges(msgs@) + rewrite_from(
                ms,
                i as int,
                int_stack(stack@),
                endpos,
            ).msgs,
            forall|k: int|
                0 <= k < msgs@.len() ==> (#[trigger] msgs@[k]).kind
                    == DiagnosticKind::InconsistentDedent && msgs@[k].file_id == file_id,
            out_wf(out@, ms, tokens@, i as int),
            count_kind(out@, SyntaxKind::Indent) - count_kind(out@, SyntaxKind::Dedent) == stack@.len() - 1,
        decreases n - i, stack@.len(),
    {
        let ghost istack = int_stack(stack@);
        let ghost rw_here = rewrite_from(ms, i as int, istack, endpos);
        proof {
            assert(ms[i as int] == model(tokens@[i as int]));
            assert(classified_token(tokens@[i as int]));
        }
        let t_kind = tokens[i].kind;
        if t_kind != SyntaxKind::Newline {
            let ghost old_out = out@;
            emit_plain(&tokens, &mut out, i, Ghost(ms));
            proof {
                assert(rw_here == with_tok(
                    ms[i as int],
                    rewrite_from(ms, i as int + 1, istack, endpos),
                ));
                lemma_shift_tok(
                    target.toks,
                    models(old_out),
                    ms[i as int],
                    rewrite_from(ms, i as int + 1, istack, endpos).toks,
                );
            }
            i = i + 1;
        } else {
            proof {
                assert(newline_shape(ms[i as int].text));
            }
            let w = tokens[i].text.as_str().unicode_len() - 1;
            let top = stack[stack.len() - 1];
            proof {
                assert(istack.last() == top as int);
                assert(w as int == ms[i as int].text.len() - 1);
            }
            if w == top {
                let ghost old_out = out@;
                emit_plain(&tokens, &mut out, i, Ghost(ms));
                proof {
                    assert(rw_here == with_tok(
                        ms[i as int],
                        rewrite_from(ms, i as int + 1, istack, endpos),
                    ));
                    lemma_shift_tok(
                        target.toks,
                        models(old_out),
                        ms[i as int],
                        rewrite_from(ms, i as int + 1, istack, endpos).toks,
                    );
                }
                i = i + 1;
            } else if w > top {
                stack.push(w);
                let ghost old_out = out@;
                emit_rewritten(&tokens, &mut out, i, SyntaxKind::Indent, Ghost(ms));
                proof {
                    assert(int_stack(stack@) =~= istack.push(w as int));
                    let m = TokenModel {
                        kind: SyntaxKind::Indent,
                        text: ms[i as int].text,
                        start: ms[i as int].start,
                        end: ms[i as int].end,
                    };
                    assert(rw_here == with_tok(
                        m,
                        rewrite_from(ms, i as int + 1, istack.push(w as int), endpos),
                    ));
                    lemma_shift_tok(
                        target.toks,
                        models(old_out),
                        m,
                        rewrite_from(ms, i as int + 1, istack.push(w as int), endpos).toks,
                    );
                }
                i = i + 1;
            } else {
                // w < top, so at least one level is open: pop it and compare
                // with the level below
                let old_top = stack.pop().unwrap();
                let newtop = stack[stack.len() - 1];
                proof {
                    assert(int_stack(stack@) =~= istack.drop_last());
                    assert(int_stack(stack@).last() == newtop as int);
                    assert(istack.last() == old_top as int);
                }
                if w < newtop {
                    let ghost old_out = out@;
                    emit_zero_dedent(
                        &mut out,
                        tokens[i].range.start,
                        Ghost(ms),
                        Ghost(tokens@),
                        Ghost(i as int),
                    );
                    proof {
                        assert(rw_here == with_tok(
                            zero_dedent(ms[i as int].start),
                            rewrite_from(ms, i as int, istack.drop_last(), endpos),
                        ));
                        lemma_shift_tok(
                            target.toks,
                            models(old_out),
                            zero_dedent(ms[i as int].start),
                            rewrite_from(ms, i as int, istack.drop_last(), endpos).toks,
                        );
                    }
                } else if w == newtop {
                    let ghost old_out = out@;
                    proof {
                        assert(count_kind(out@, SyntaxKind::Indent) - count_kind(
                            out@,
                            SyntaxKind::Dedent,
                        ) >= 1);
                    }
                    emit_rewritten(&tokens, &mut out, i, SyntaxKind::Dedent, Ghost(ms));
                    proof {
                        let m = TokenModel {
                            kind: SyntaxKind::Dedent,
                            text: ms[i as int].text,
                            start: ms[i as int].start,
                            end: ms[i as int].end,
                        };
                        assert(rw_here == with_tok(
                            m,
                            rewrite_from(ms, i as int + 1, istack.drop_last(), endpos),
                        ));
                        lemma_shift_tok(
                            target.toks,
                            models(old_out),
                            m,
                            rewrite_from(ms, i as int + 1, istack.drop_last(), endpos).toks,
                        );
                    }
                    i = i + 1;
                } else {
                    // the width matches no level: the dedent is inconsistent,
                    // the line becomes one Error token, the stack stays
                    stack.push(old_top);
                    proof {
                        assert(int_stack(stack@) =~= istack);
                        lemma_line_end_bounds(ms, i as int + 1);
                    }
                    let ghost old_out = out@;
                    let ghost old_msgs = msgs@;
                    let i2 = emit_error_line(file_id, &tokens, &mut out, &mut msgs, i, Ghost(ms));
                    proof {
                        let j = i2 as int;
                        let err = TokenModel {
                            kind: SyntaxKind::Error,
                            text: concat_models(ms.subrange(i as int, j)),
                            start: ms[i as int].start,
                            end: ms[j - 1].end,
                        };
                        assert(rw_here.toks == seq![err] + rewrite_from(ms, j, istack, endpos).toks);
                        assert(rw_here.msgs == seq![(err.start, err.end)] + rewrite_from(
                            ms,
                            j,
                            istack,
                            endpos,
                        ).msgs);
                        lemma_shift_tok(
                            target.toks,
                            models(old_out),
                            err,
                            rewrite_from(ms, j, istack, endpos).toks,
                        );
                        assert(msg_ranges(msgs@) =~= msg_ranges(old_msgs).push(
                            (err.start, err.end),
                        ));
                        lemma_shift_msg(
                            target.msgs,
                            msg_ranges(old_msgs),
                            (err.start, err.end),
                            rewrite_from(ms, j, istack, endpos).msgs,
                        );
                        assert forall|k: int| 0 <= k < msgs@.len() implies (#[trigger] msgs@[
                            k
                        ]).kind == DiagnosticKind::InconsistentDedent && msgs@[k].file_id
                            == file_id by {
                            if k < msgs@.len() - 1 {
                                assert(msgs@[k] == old_msgs[k]);
                            }
                        }
                    }
                    i = i2;
                }
            }
        }
    }

    // close every open level with a zero-width dedent at the end of input
    let end_pos: usize = if n == 0 {
        0
    } else {
        tokens[n - 1].range.end
    };
    proof {
        assert(tokens@.take(n as int) =~= tokens@);
        if n > 0 {
            assert(ms[n as int - 1] == model(tokens@[n as int - 1]));
        }
        if n == 0 {
            assert(concat_texts(tokens@) == Seq::<char>::empty());
            assert(byte_len(Seq::<char>::empty()) == 0);
        }
        assert(end_pos as int == endpos);
        assert(end_pos as int == total);
        assert(rewrite_from(ms, n as int, int_stack(stack@), endpos).toks == eof_dedents(
            int_stack(stack@),
            endpos,
        ));
        assert(rewrite_from(ms, n as int, int_stack(stack@), endpos).msgs =~= Seq::<
            (int, int),
        >::empty());
        assert(msg_ranges(msgs@) + Seq::<(int, int)>::empty() =~= msg_ranges(msgs@));
        assert(prefix_end(ms, n as int) == total);
    }
    while stack.len() > 1
        invariant
            stack@.len() >= 1,
            stack@[0] == 0,
            forall|k: int| 0 <= k < stack@.len() - 1 ==> #[trigger] (stack@[k]) < stack@[k + 1],
            input_wf(ms, tokens@),
            n == tokens@.len(),
            endpos == end_of(ms),
            n == 0 ==> total == 0,
            end_pos as int == endpos,
            end_pos as int == total,
            total == byte_len(concat_texts(tokens@)),
            target == rewrite_from(ms, 0, seq![0int], endpos),
            target.toks == models(out@) + eof_dedents(int_stack(stack@), endpos),
            target.msgs == msg_ranges(msgs@),
            forall|k: int|
                0 <= k < msgs@.len() ==> (#[trigger] msgs@[k]).kind
                    == DiagnosticKind::InconsistentDedent && msgs@[k].file_id == file_id,
            out_wf(out@, ms, tokens@, n as int),
            count_kind(out@, SyntaxKind::Indent) - count_kind(out@, SyntaxKind::Dedent)
                == stack@.len() - 1,
        decreases stack@.len(),
    {
        let ghost istack3 = int_stack(stack@);
        stack.pop();
        let ghost old_out = out@;
        proof {
            if n > 0 {
                assert(prefix_end(ms, n as int) == ms[n as int - 1].end);
                assert(ms[n as int - 1].end == end_of(ms));
            }
            assert(prefix_end(ms, n as int) == total);
        }
        emit_zero_dedent(&mut out, end_pos, Ghost(ms), Ghost(tokens@), Ghost(n as int));
        proof {
            assert(int_stack(stack@) =~= istack3.drop_last());
            assert(eof_dedents(istack3, endpos) == seq![zero_dedent(endpos)] + eof_dedents(
                istack3.drop_last(),
                endpos,
            ));
            lemma_shift_tok(
                target.toks,
                models(old_out),
                zero_dedent(endpos),
                eof_dedents(istack3.drop_last(), endpos),
            );
        }
    }
    proof {
        assert(int_stack(stack@).len() == 1);
        assert(eof_dedents(int_stack(stack@), endpos) == Seq::<TokenModel>::empty());
        assert(models(out@) + Seq::<TokenModel>::empty() =~= models(out@));
        let r = rewrite_from(ms, 0, seq![0int], endpos);
        assert(models(out@) == r.toks);
        assert(msg_ranges(msgs@) == r.msgs);
        assert forall|k: int| 0 <= k < r.msgs.len() implies (#[trigger] msgs@[k]).kind
            == DiagnosticKind::InconsistentDedent && msgs@[k].file_id == file_id
            && msgs@[k].range.start as int == r.msgs[k].0 && msgs@[k].range.end as int
            == r.msgs[k].1 by {
            assert(msg_ranges(msgs@)[k] == (
                msgs@[k].range.start as int,
                msgs@[k].range.end as int,
            ));
        }
    }
    (out, msgs)
}

/// The rewriting is deterministic: any two outputs the rewriter can produce
/// for the same input agree on every token's kind, text and range.
pub proof fn lemma_rewrite_deterministic(tokens: Seq<Token>, o1: Seq<Token>, o2: Seq<Token>)
    requires
        models(o1) == rewrite_from(models(tokens), 0, seq![0int], end_of(models(tokens))).toks,
        models(o2) == rewrite_from(models(tokens), 0, seq![0int], end_of(models(tokens))).toks,
    ensures
        o1.len() == o2.len(),
        forall|i: int|
            0 <= i < o1.len() ==> (#[trigger] o1[i]).kind == o2[i].kind && o1[i].text@
                == o2[i].text@ && o1[i].range == o2[i].range,
{
    assert(models(o1).len() == o1.len());
    assert(models(o2).len() == o2.len());
    assert(o1.len() == o2.len());
    assert forall|i: int| 0 <= i < o1.len() implies (#[trigger] o1[i]).kind == o2[i].kind
        && o1[i].text@ == o2[i].text@ && o1[i].range == o2[i].range by {
        assert(models(o1)[i] == model(o1[i]));
        assert(models(o2)[i] == model(o2[i]));
        assert(model(o1[i]) == model(o2[i]));
    }
}

/// Non-decreasing starting offsets of recorded ranges.
pub open spec fn ranges_sorted(ps: Seq<(int, int)>) -> bool {
    forall|k: int| 0 < k < ps.len() ==> (#[trigger] ps[k]).0 >= ps[k - 1].0
}

/// Later tokens start no earlier than older ones.
proof fn lemma_starts_chain(ms: Seq<TokenModel>, i: int, j: int)
    requires
        forall|k: int| 0 <= k < ms.len() ==> (#[trigger] ms[k]).end >= ms[k].start,
        forall|k: int| 1 <= k < ms.len() ==> (#[trigger] ms[k]).start >= ms[k - 1].end,
        0 <= i <= j < ms.len(),
    ensures
        ms[j].start >= ms[i].start,
    decreases j - i,
{
    if i < j {
        lemma_starts_chain(ms, i, j - 1);
    }
}

/// The ranges the rewriter records come ordered by starting offset, each at
/// or after the token the rewrite stands at.
#[verifier::rlimit(100)]
proof fn lemma_rewrite_msgs_sorted_from(ms: Seq<TokenModel>, i: int, stack: Seq<int>, endpos: int)
    requires
        forall|k: int| 0 <= k < ms.len() ==> (#[trigger] ms[k]).end >= ms[k].start,
        forall|k: int| 1 <= k < ms.len() ==> (#[trigger] ms[k]).start >= ms[k - 1].end,
    ensures
        ranges_sorted(rewrite_from(ms, i, stack, endpos).msgs),
        forall|k: int|
            0 <= k < rewrite_from(ms, i, stack, endpos).msgs.len() && 0 <= i < ms.len()
                ==> (#[trigger] rewrite_from(ms, i, stack, endpos).msgs[k]).0 >= ms[i].start,
    decreases ms.len() - i, stack.len(), 1int,
{
    if i < 0 || i >= ms.len() {
    } else {
        let t = ms[i];
        let msgs = rewrite_from(ms, i, stack, endpos).msgs;
        if t.kind != SyntaxKind::Newline {
            lemma_rewrite_msgs_sorted_from(ms, i + 1, stack, endpos);
            lemma_step_bound(ms, i, stack, endpos, msgs, rewrite_from(ms, i + 1, stack, endpos).msgs);
        } else {
            let w = t.text.len() - 1;
            let top = if stack.len() > 0 {
                stack.last()
            } else {
                0
            };
            if w == top {
                lemma_rewrite_msgs_sorted_from(ms, i + 1, stack, endpos);
                lemma_step_bound(ms, i, stack, endpos, msgs, rewrite_from(ms, i + 1, stack, endpos).msgs);
            } else if w > top {
                lemma_rewrite_msgs_sorted_from(ms, i + 1, stack.push(w), endpos);
                lemma_step_bound(ms, i, stack, endpos, msgs, rewrite_from(ms, i + 1, stack.push(w), endpos).msgs);
            } else if stack.len() <= 1 {
                lemma_rewrite_msgs_sorted_from(ms, i + 1, stack, endpos);
                lemma_step_bound(ms, i, stack, endpos, msgs, rewrite_from(ms, i + 1, stack, endpos).msgs);
            } else {
                let popped = stack.drop_last();
                let newtop = popped.last();
                if w < newtop {
                    lemma_rewrite_msgs_sorted_from(ms, i, popped, endpos);
                    assert(msgs == rewrite_from(ms, i, popped, endpos).msgs);
                } else if w == newtop {
                    lemma_rewrite_msgs_sorted_from(ms, i + 1, popped, endpos);
                    lemma_step_bound(ms, i, stack, endpos, msgs, rewrite_from(ms, i + 1, popped, endpos).msgs);
                } else {
                    let j0 = line_end(ms, i + 1);
                    let j = if j0 < i + 1 {
                        i + 1
                    } else if j0 > ms.len() {
                        ms.len() as int
                    } else {
                        j0
                    };
                    lemma_rewrite_msgs_sorted_from(ms, j, stack, endpos);
                    lemma_error_branch_sorted(
                        ms,
                        i,
                        j,
                        msgs,
                        rewrite_from(ms, j, stack, endpos).msgs,
                    );
                }
            }
        }
    }
}

/// The recorded range of an inconsistent line precedes whatever the
/// recursion past the line records.
#[verifier::rlimit(100)]
proof fn lemma_error_branch_sorted(
    ms: Seq<TokenModel>,
    i: int,
    j: int,
    msgs: Seq<(int, int)>,
    rest: Seq<(int, int)>,
)
    requires
        forall|k: int| 0 <= k < ms.len() ==> (#[trigger] ms[k]).end >= ms[k].start,
        forall|k: int| 1 <= k < ms.len() ==> (#[trigger] ms[k]).start >= ms[k - 1].end,
        0 <= i < ms.len(),
        i < j <= ms.len(),
        msgs == seq![(ms[i].start, ms[j - 1].end)] + rest,
        ranges_sorted(rest),
        forall|k: int|
            0 <= k < rest.len() && 0 <= j < ms.len() ==> (#[trigger] rest[k]).0 >= ms[j].start,
        j >= ms.len() ==> rest.len() == 0,
    ensures
        ranges_sorted(msgs),
        forall|k: int| 0 <= k < msgs.len() ==> (#[trigger] msgs[k]).0 >= ms[i].start,
{
    let head = (ms[i].start, ms[j - 1].end);
    assert forall|k: int| 0 <= k < rest.len() implies (#[trigger] rest[k]).0 >= ms[i].start by {
        assert(j < ms.len());
        assert(rest[k].0 >= ms[j].start);
        lemma_starts_chain(ms, i, j);
    }
    assert forall|k: int| 0 <= k < msgs.len() implies (#[trigger] msgs[k]).0 >= ms[i].start by {
        if k == 0 {
            assert(msgs[0] == head);
        } else {
            assert(msgs[k] == rest[k - 1]);
        }
    }
    assert forall|k: int| 0 < k < msgs.len() implies (#[trigger] msgs[k]).0 >= msgs[k - 1].0 by {
        assert(msgs[k] == rest[k - 1]);
        if k == 1 {
            assert(msgs[0] == head);
        } else {
            assert(msgs[k - 1] == rest[k - 2]);
        }
    }
}

/// The bound of a pass-through step: the recursion continues at the next
/// token, which starts no earlier than this one.
proof fn lemma_step_bound(
    ms: Seq<TokenModel>,
    i: int,
    stack: Seq<int>,
    endpos: int,
    msgs: Seq<(int, int)>,
    rec: Seq<(int, int)>,
)
    requires
        forall|k: int| 0 <= k < ms.len() ==> (#[trigger] ms[k]).end >= ms[k].start,
        forall|k: int| 1 <= k < ms.len() ==> (#[trigger] ms[k]).start >= ms[k - 1].end,
        0 <= i < ms.len(),
        msgs == rec,
        ranges_sorted(rec),
        forall|k: int|
            0 <= k < rec.len() && 0 <= i + 1 < ms.len() ==> (#[trigger] rec[k]).0 >= ms[i
                + 1].start,
        i + 1 >= ms.len() ==> rec.len() == 0,
    ensures
        ranges_sorted(msgs),
        forall|k: int| 0 <= k < msgs.len() ==> (#[trigger] msgs[k]).0 >= ms[i].start,
{
    assert forall|k: int| 0 <= k < msgs.len() implies (#[trigger] msgs[k]).0 >= ms[i].start by {
        assert(i + 1 < ms.len());
        assert(msgs[k].0 >= ms[i + 1].start);
        assert(ms[i + 1].start >= ms[i].end);
    }
}

/// The rewriter's recorded ranges, for a tiled token list, come ordered by
/// starting offset.
#[verifier::rlimit(100)]
pub proof fn lemma_rewrite_messages_sorted(tokens: Seq<Token>)
    requires
        ranges_tile(tokens, 0, byte_len(concat_texts(tokens))),
    ensures
        ranges_sorted(rewrite_from(models(tokens), 0, seq![0int], end_of(models(tokens))).msgs),
{
    let ms = models(tokens);
    assert forall|k: int| 0 <= k < ms.len() implies (#[trigger] ms[k]).end >= ms[k].start by {
        assert(ms[k] == model(tokens[k]));
        crate::token::lemma_byte_len_bounds(tokens[k].text@);
        assert(tokens[k].range.end == tokens[k].range.start + byte_len(tokens[k].text@));
    }
    assert forall|k: int| 1 <= k < ms.len() implies (#[trigger] ms[k]).start >= ms[k - 1].end by {
        assert(ms[k] == model(tokens[k]));
        assert(ms[k - 1] == model(tokens[k - 1]));
        assert(tokens[k].range.start == tokens[k - 1].range.end);
    }
    lemma_rewrite_msgs_sorted_from(ms, 0, seq![0int], end_of(ms));
}

} // verus!
