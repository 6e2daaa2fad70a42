//! The event sink: replays the parser's event stream against the processed
//! token list, reattaching trivia to the next significant token, and builds
//! the lossless green tree together with the final message list.
//!
//! The tree's text is proved to be exactly the concatenation of all token
//! texts, whatever events the parser produced: every token is attached
//! exactly once, in order, and tokens left over at the end of the events are
//! attached to the root.

use vstd::prelude::*;

use crate::event::Event;
use crate::green::{
    node_idents_ok, node_leaves, node_text, stack_idents, stack_leaves, stack_text, GreenNode,
    TreeBuilder,
};
use crate::indent::idents_ok;
use crate::message::{DiagnosticKind, Message, ParseError};
use crate::syntax::SyntaxKind;
use crate::token::{concat_texts, lemma_concat_texts_push, Token};

verus! {

/// A diagnostic reduced to mathematical values, so that messages built at
/// different places can be compared.
pub ghost enum DiagModel {
    BadChar(char),
    Unterminated(SyntaxKind),
    BadEscape(char),
    Inconsistent,
    Expected { expected: Seq<SyntaxKind>, found: Option<SyntaxKind> },
    Missing(SyntaxKind),
    UnexpectedTok(SyntaxKind),
    Eof(Seq<SyntaxKind>),
}

pub open spec fn kind_model(k: DiagnosticKind) -> DiagModel {
    match k {
        DiagnosticKind::BadCharacter { character } => DiagModel::BadChar(character),
        DiagnosticKind::UnterminatedLiteral { kind } => DiagModel::Unterminated(kind),
        DiagnosticKind::InvalidEscape { character } => DiagModel::BadEscape(character),
        DiagnosticKind::InconsistentDedent => DiagModel::Inconsistent,
        DiagnosticKind::Expected { expected, found } => DiagModel::Expected {
            expected: expected@,
            found,
        },
        DiagnosticKind::Missing { kind } => DiagModel::Missing(kind),
        DiagnosticKind::UnexpectedToken { kind } => DiagModel::UnexpectedTok(kind),
        DiagnosticKind::UnexpectedEof { expected } => DiagModel::Eof(expected@),
    }
}

/// A message reduced to its kind and byte range.
pub ghost struct MsgModel {
    pub kind: DiagModel,
    pub start: int,
    pub end: int,
}

pub open spec fn msg_model<FileId>(m: Message<FileId>) -> MsgModel {
    MsgModel { kind: kind_model(m.kind), start: m.range.start as int, end: m.range.end as int }
}

pub open spec fn msg_models<FileId>(msgs: Seq<Message<FileId>>) -> Seq<MsgModel> {
    Seq::new(msgs.len(), |i: int| msg_model(msgs[i]))
}

/// The kind and text of every token of the list, in order.
pub open spec fn leaves_of(toks: Seq<Token>) -> Seq<(SyntaxKind, Seq<char>)> {
    Seq::new(toks.len(), |i: int| (toks[i].kind, toks[i].text@))
}

/// The diagnostic a recorded parse error stands for: a missing token when it
/// is zero-width with one expectation, an unexpected token when nothing in
/// particular was expected, the end of input when nothing was found, and a
/// plain expectation mismatch otherwise.
pub open spec fn error_model(e: ParseError) -> MsgModel {
    MsgModel {
        kind: if e.found is None {
            DiagModel::Eof(e.expected@)
        } else if e.range.start == e.range.end && e.expected@.len() == 1 {
            DiagModel::Missing(e.expected@[0])
        } else if e.expected@.len() == 0 {
            DiagModel::UnexpectedTok(e.found.unwrap())
        } else {
            DiagModel::Expected { expected: e.expected@, found: e.found }
        },
        start: e.range.start as int,
        end: e.range.end as int,
    }
}

/// The messages the error events of the stream stand for, in order.
pub open spec fn events_msgs(evs: Seq<Event>) -> Seq<MsgModel>
    decreases evs.len(),
{
    if evs.len() == 0 {
        Seq::empty()
    } else {
        let rest = events_msgs(evs.drop_first());
        match evs[0] {
            Event::Error(e) => seq![error_model(e)] + rest,
            _ => rest,
        }
    }
}

proof fn lemma_events_msgs_push(evs: Seq<Event>, ev: Event)
    ensures
        events_msgs(evs.push(ev)) == events_msgs(evs) + (match ev {
            Event::Error(e) => seq![error_model(e)],
            _ => Seq::<MsgModel>::empty(),
        }),
    decreases evs.len(),
{
    let tail = (match ev {
        Event::Error(e) => seq![error_model(e)],
        _ => Seq::<MsgModel>::empty(),
    });
    if evs.len() == 0 {
        assert(evs.push(ev).drop_first() =~= Seq::<Event>::empty());
        assert(evs.push(ev)[0] == ev);
        assert(events_msgs(Seq::<Event>::empty()) == Seq::<MsgModel>::empty());
        assert(events_msgs(evs) + tail =~= tail);
        assert(tail + Seq::<MsgModel>::empty() =~= tail);
    } else {
        assert(evs.push(ev).drop_first() =~= evs.drop_first().push(ev));
        assert(evs.push(ev)[0] == evs[0]);
        lemma_events_msgs_push(evs.drop_first(), ev);
        match evs[0] {
            Event::Error(e) => {
                assert(seq![error_model(e)] + (events_msgs(evs.drop_first()) + tail) =~= (seq![
                    error_model(e),
                ] + events_msgs(evs.drop_first())) + tail);
            },
            _ => {},
        }
    }
}

/// Non-decreasing starting offsets.
pub open spec fn sorted_by_start(ms: Seq<MsgModel>) -> bool {
    forall|i: int| 0 < i < ms.len() ==> (#[trigger] ms[i]).start >= ms[i - 1].start
}

/// The stable merge of two message lists by starting offset: the earlier
/// start goes first, and on ties the first list wins.
pub open spec fn merge_models(a: Seq<MsgModel>, b: Seq<MsgModel>) -> Seq<MsgModel>
    decreases a.len() + b.len(),
{
    if a.len() == 0 {
        b
    } else if b.len() == 0 {
        a
    } else if a[0].start <= b[0].start {
        seq![a[0]] + merge_models(a.drop_first(), b)
    } else {
        seq![b[0]] + merge_models(a, b.drop_first())
    }
}

/// Copies a list of kinds.
fn copy_kinds(v: &Vec<SyntaxKind>) -> (r: Vec<SyntaxKind>)
    ensures
        r@ == v@,
{
    let mut r: Vec<SyntaxKind> = Vec::new();
    let mut i: usize = 0;
    while i < v.len()
        invariant
            i <= v@.len(),
            r@ == v@.take(i as int),
        decreases v@.len() - i,
    {
        r.push(v[i]);
        proof {
            assert(v@.take(i as int).push(v@[i as int]) =~= v@.take(i as int + 1));
        }
        i = i + 1;
    }
    proof {
        assert(v@.take(v@.len() as int) =~= v@);
    }
    r
}

/// Turns a recorded parse error into the message it stands for.
fn error_message<FileId: Copy>(file_id: FileId, e: &ParseError) -> (m: Message<FileId>)
    ensures
        msg_model(m) == error_model(*e),
        m.file_id == file_id,
{
    let kind: DiagnosticKind = if e.found.is_none() {
        DiagnosticKind::UnexpectedEof { expected: copy_kinds(&e.expected) }
    } else if e.range.start == e.range.end && e.expected.len() == 1 {
        DiagnosticKind::Missing { kind: e.expected[0] }
    } else if e.expected.len() == 0 {
        let found = match e.found {
            Some(k) => k,
            None => SyntaxKind::Error,
        };
        DiagnosticKind::UnexpectedToken { kind: found }
    } else {
        DiagnosticKind::Expected { expected: copy_kinds(&e.expected), found: e.found }
    };
    Message { file_id, kind, range: e.range }
}

/// Merges two message lists into one, ordered by starting offset where the
/// inputs are so ordered; on equal starts the first list's messages come
/// first.
#[verifier::rlimit(100)]
pub fn merge_messages<FileId: Copy>(a: Vec<Message<FileId>>, b: Vec<Message<FileId>>) -> (out: Vec<
    Message<FileId>,
>)
    ensures
        msg_models(out@) == merge_models(msg_models(a@), msg_models(b@)),
        out@.len() == a@.len() + b@.len(),
        forall|k: int|
            0 <= k < out@.len() ==> (exists|j: int|
                0 <= j < a@.len() && (#[trigger] out@[k]) == a@[j]) || (exists|j: int|
                0 <= j < b@.len() && out@[k] == b@[j]),
        sorted_by_start(msg_models(a@)) && sorted_by_start(msg_models(b@)) ==> sorted_by_start(
            msg_models(out@),
        ),
    decreases a@.len() + b@.len(),
{
    let mut a = a;
    let mut b = b;
    let mut out: Vec<Message<FileId>> = Vec::new();
    let ghost ga = a@;
    let ghost gb = b@;
    let ghost sorted_in = sorted_by_start(msg_models(ga)) && sorted_by_start(msg_models(gb));
    while a.len() > 0 || b.len() > 0
        invariant
            msg_models(ga).len() == ga.len(),
            merge_models(msg_models(ga), msg_models(gb)) == msg_models(out@) + merge_models(
                msg_models(a@),
                msg_models(b@),
            ),
            out@.len() + a@.len() + b@.len() == ga.len() + gb.len(),
            forall|k: int|
                0 <= k < a@.len() ==> (exists|j: int|
                    0 <= j < ga.len() && (#[trigger] a@[k]) == ga[j]),
            forall|k: int|
                0 <= k < b@.len() ==> (exists|j: int|
                    0 <= j < gb.len() && (#[trigger] b@[k]) == gb[j]),
            forall|k: int|
                0 <= k < out@.len() ==> (exists|j: int|
                    0 <= j < ga.len() && (#[trigger] out@[k]) == ga[j]) || (exists|j: int|
                    0 <= j < gb.len() && out@[k] == gb[j]),
            sorted_in == (sorted_by_start(msg_models(ga)) && sorted_by_start(msg_models(gb))),
            sorted_in ==> sorted_by_start(msg_models(a@)),
            sorted_in ==> sorted_by_start(msg_models(b@)),
            sorted_in ==> sorted_by_start(msg_models(out@)),
            sorted_in && out@.len() > 0 && a@.len() > 0 ==> msg_models(out@).last().start
                <= msg_models(a@)[0].start,
            sorted_in && out@.len() > 0 && b@.len() > 0 ==> msg_models(out@).last().start
                <= msg_models(b@)[0].start,
        decreases a@.len() + b@.len(),
    {
        let ghost olda = a@;
        let ghost oldb = b@;
        let ghost oldout = out@;
        let take_a = if a.len() == 0 {
            false
        } else if b.len() == 0 {
            true
        } else {
            a[0].range.start <= b[0].range.start
        };
        if take_a {
            let m = a.remove(0);
            let ghost gm = m;
            out.push(m);
            proof {
                assert(a@ =~= olda.drop_first());
                assert(gm == olda[0]);
                if sorted_in {
                    assert(msg_models(a@) =~= msg_models(olda).drop_first());
                    assert forall|i: int| 0 < i < msg_models(a@).len() implies (#[trigger] msg_models(
                        a@,
                    )[i]).start >= msg_models(a@)[i - 1].start by {
                        assert(msg_models(a@)[i] == msg_models(olda)[i + 1]);
                        assert(msg_models(a@)[i - 1] == msg_models(olda)[i]);
                    }
                    assert(msg_models(out@) =~= msg_models(oldout).push(msg_model(gm)));
                    assert forall|i: int| 0 < i < msg_models(out@).len() implies (#[trigger] msg_models(
                        out@,
                    )[i]).start >= msg_models(out@)[i - 1].start by {
                        if i < msg_models(out@).len() - 1 {
                            assert(msg_models(out@)[i] == msg_models(oldout)[i]);
                            assert(msg_models(out@)[i - 1] == msg_models(oldout)[i - 1]);
                        } else {
                            assert(msg_models(out@)[i] == msg_model(gm));
                            if oldout.len() > 0 {
                                assert(msg_models(out@)[i - 1] == msg_models(oldout).last());
                                assert(msg_models(oldout).last().start <= msg_models(
                                    olda,
                                )[0].start);
                            }
                        }
                    }
                    if a@.len() > 0 {
                        assert(msg_models(a@)[0] == msg_models(olda)[1]);
                        assert(msg_models(olda)[1].start >= msg_models(olda)[0].start);
                    }
                    if oldb.len() > 0 {
                        assert(msg_model(gm).start <= msg_models(oldb)[0].start);
                    }
                }
                assert(msg_models(olda) =~= seq![msg_model(olda[0])] + msg_models(
                    olda.drop_first(),
                ));
                assert(msg_models(out@) =~= msg_models(oldout).push(msg_model(gm)));
                if oldb.len() == 0 {
                    assert(msg_models(oldb).len() == 0);
                    assert(merge_models(msg_models(olda), msg_models(oldb)) == msg_models(olda));
                    assert(msg_models(oldout).push(msg_model(gm)) + merge_models(
                        msg_models(a@),
                        msg_models(b@),
                    ) =~= msg_models(oldout) + msg_models(olda));
                } else {
                    assert(msg_models(olda)[0] == msg_model(olda[0]));
                    assert(msg_models(oldb)[0] == msg_model(oldb[0]));
                    assert(msg_models(olda)[0].start <= msg_models(oldb)[0].start);
                    assert(msg_models(olda).drop_first() =~= msg_models(olda.drop_first()));
                    assert(merge_models(msg_models(olda), msg_models(oldb)) == seq![
                        msg_model(olda[0]),
                    ] + merge_models(msg_models(a@), msg_models(oldb)));
                    assert(msg_models(oldout) + (seq![msg_model(gm)] + merge_models(
                        msg_models(a@),
                        msg_models(b@),
                    )) =~= msg_models(oldout).push(msg_model(gm)) + merge_models(
                        msg_models(a@),
                        msg_models(b@),
                    ));
                }
            }
        } else {
            let m = b.remove(0);
            let ghost gm = m;
            out.push(m);
            proof {
                assert(b@ =~= oldb.drop_first());
                assert(gm == oldb[0]);
                if sorted_in {
                    assert(msg_models(b@) =~= msg_models(oldb).drop_first());
                    assert forall|i: int| 0 < i < msg_models(b@).len() implies (#[trigger] msg_models(
                        b@,
                    )[i]).start >= msg_models(b@)[i - 1].start by {
                        assert(msg_models(b@)[i] == msg_models(oldb)[i + 1]);
                        assert(msg_models(b@)[i - 1] == msg_models(oldb)[i]);
                    }
                    assert(msg_models(out@) =~= msg_models(oldout).push(msg_model(gm)));
                    assert forall|i: int| 0 < i < msg_models(out@).len() implies (#[trigger] msg_models(
                        out@,
                    )[i]).start >= msg_models(out@)[i - 1].start by {
                        if i < msg_models(out@).len() - 1 {
                            assert(msg_models(out@)[i] == msg_models(oldout)[i]);
                            assert(msg_models(out@)[i - 1] == msg_models(oldout)[i - 1]);
                        } else {
                            assert(msg_models(out@)[i] == msg_model(gm));
                            if oldout.len() > 0 {
                                assert(msg_models(out@)[i - 1] == msg_models(oldout).last());
                                assert(msg_models(oldout).last().start <= msg_models(
                                    oldb,
                                )[0].start);
                            }
                        }
                    }
                    if b@.len() > 0 {
                        assert(msg_models(b@)[0] == msg_models(oldb)[1]);
                        assert(msg_models(oldb)[1].start >= msg_models(oldb)[0].start);
                    }
                    if olda.len() > 0 {
                        assert(msg_model(gm).start <= msg_models(olda)[0].start);
                    }
                }
                assert(msg_models(out@) =~= msg_models(oldout).push(msg_model(gm)));
                assert(oldb.len() > 0);
                if olda.len() == 0 {
                    assert(msg_models(olda).len() == 0);
                    assert(merge_models(msg_models(olda), msg_models(oldb)) == msg_models(oldb));
                    assert(msg_models(oldb) =~= seq![msg_model(oldb[0])] + msg_models(
                        oldb.drop_first(),
                    ));
                    assert(msg_models(oldb.drop_first()) =~= msg_models(b@));
                    assert(merge_models(msg_models(a@), msg_models(b@)) == msg_models(b@));
                    assert(msg_models(oldout) + (seq![msg_model(gm)] + msg_models(b@)) =~= msg_models(
                        oldout,
                    ).push(msg_model(gm)) + msg_models(b@));
                } else {
                    assert(msg_models(olda)[0] == msg_model(olda[0]));
                    assert(msg_models(oldb)[0] == msg_model(oldb[0]));
                    assert(!(msg_models(olda)[0].start <= msg_models(oldb)[0].start));
                    assert(msg_models(oldb).drop_first() =~= msg_models(oldb.drop_first()));
                    assert(merge_models(msg_models(olda), msg_models(oldb)) == seq![
                        msg_model(oldb[0]),
                    ] + merge_models(msg_models(olda), msg_models(b@)));
                    assert(msg_models(oldout) + (seq![msg_model(gm)] + merge_models(
                        msg_models(a@),
                        msg_models(b@),
                    )) =~= msg_models(oldout).push(msg_model(gm)) + merge_models(
                        msg_models(a@),
                        msg_models(b@),
                    ));
                }
            }
        }
    }
    proof {
        assert(msg_models(a@).len() == 0);
        assert(msg_models(b@).len() == 0);
        assert(merge_models(msg_models(a@), msg_models(b@)).len() == 0);
        assert(msg_models(out@) + merge_models(msg_models(a@), msg_models(b@)) =~= msg_models(
            out@,
        ));
    }
    out
}

/// Attaches the token at `c` to the innermost open node.
fn attach_token(builder: &mut TreeBuilder, tokens: &Vec<Token>, c: usize)
    requires
        old(builder).stack@.len() >= 1,
        c < tokens@.len(),
        idents_ok(tokens@),
        stack_idents(old(builder).stack@),
        stack_text(old(builder).stack@) == concat_texts(tokens@.take(c as int)),
        stack_leaves(old(builder).stack@) == leaves_of(tokens@.take(c as int)),
        old(builder).stack@[0].0 == SyntaxKind::Root,
    ensures
        final(builder).stack@.len() == old(builder).stack@.len(),
        stack_idents(final(builder).stack@),
        stack_text(final(builder).stack@) == concat_texts(tokens@.take(c as int + 1)),
        stack_leaves(final(builder).stack@) == leaves_of(tokens@.take(c as int + 1)),
        final(builder).stack@[0].0 == SyntaxKind::Root,
{
    let text = tokens[c].text.clone();
    proof {
        assert(tokens@[c as int].kind == SyntaxKind::Identifier
            ==> !crate::lexer::is_reserved_spelling(tokens@[c as int].text@));
        assert(tokens@.take(c as int + 1) =~= tokens@.take(c as int).push(tokens@[c as int]));
        lemma_concat_texts_push(tokens@.take(c as int), tokens@[c as int]);
        assert(leaves_of(tokens@.take(c as int + 1)) =~= leaves_of(tokens@.take(c as int)).push(
            (tokens@[c as int].kind, tokens@[c as int].text@),
        ));
    }
    let ghost old_stack = builder.stack@;
    builder.token(tokens[c].kind, text);
    proof {
        if old_stack.len() == 1 {
            assert(builder.stack@.last() == builder.stack@[0]);
        } else {
            assert(builder.stack@[0] == old_stack[0]);
        }
    }
}

/// Replays the events against the token list and builds the tree and the
/// parser's messages. The tree's text is the whole token text, its root is
/// `Root`, and it contains no identifier spelled like a keyword; the
/// messages are exactly those of the stream's error events, in order.
#[verifier::rlimit(100)]
pub fn apply_events<FileId: Copy>(
    file_id: FileId,
    tokens: &Vec<Token>,
    events: Vec<Event>,
) -> (res: (GreenNode, Vec<Message<FileId>>))
    requires
        idents_ok(tokens@),
    ensures
        node_text(res.0) == concat_texts(tokens@),
        node_leaves(res.0) == leaves_of(tokens@),
        res.0.kind == SyntaxKind::Root,
        node_idents_ok(res.0),
        msg_models(res.1@) == events_msgs(events@),
        forall|k: int| 0 <= k < res.1@.len() ==> (#[trigger] res.1@[k]).file_id == file_id,
{
    let ghost orig = events@;
    let mut events = events;
    let mut builder = TreeBuilder::new_root();
    let mut msgs: Vec<Message<FileId>> = Vec::new();
    let mut c: usize = 0;
    let n = events.len();
    let mut idx: usize = 0;

    proof {
        assert(concat_texts(tokens@.take(0)) =~= Seq::<char>::empty());
        assert(leaves_of(tokens@.take(0)) =~= Seq::<(SyntaxKind, Seq<char>)>::empty());
        assert(msg_models(msgs@) =~= Seq::<MsgModel>::empty());
        assert(events_msgs(orig.take(0)) == Seq::<MsgModel>::empty());
    }

    while idx < n
        invariant
            idx <= n,
            n == events@.len(),
            events@.len() == orig.len(),
            idents_ok(tokens@),
            c <= tokens@.len(),
            builder.stack@.len() >= 1,
            builder.stack@[0].0 == SyntaxKind::Root,
            stack_idents(builder.stack@),
            stack_text(builder.stack@) == concat_texts(tokens@.take(c as int)),
            stack_leaves(builder.stack@) == leaves_of(tokens@.take(c as int)),
            msg_models(msgs@) == events_msgs(orig.take(idx as int)),
            forall|k: int| 0 <= k < msgs@.len() ==> (#[trigger] msgs@[k]).file_id == file_id,
            forall|k: int|
                idx <= k < orig.len() ==> ((#[trigger] events@[k]) is Error || orig[k] is Error
                    ==> events@[k] == orig[k]),
        decreases n - idx,
    {
        let ghost old_msgs = msgs@;
        proof {
            assert(orig.take(idx as int + 1) =~= orig.take(idx as int).push(orig[idx as int]));
            lemma_events_msgs_push(orig.take(idx as int), orig[idx as int]);
        }
        match &events[idx] {
            Event::StartNode { kind, forward_parent } => {
                proof {
                    assert(!(orig[idx as int] is Error));
                }
                let k0 = *kind;
                let fp0 = *forward_parent;
                let mut kinds: Vec<SyntaxKind> = Vec::new();
                kinds.push(k0);
                let mut fp = fp0;
                let mut last = idx;
                loop
                    invariant
                        idx <= last < events@.len(),
                        events@.len() == orig.len(),
                        forall|k: int|
                            idx <= k < orig.len() ==> ((#[trigger] events@[k]) is Error
                                || orig[k] is Error ==> events@[k] == orig[k]),
                        kinds@.len() >= 1,
                    decreases events@.len() - last,
                {
                    let nxt = match fp {
                        None => {
                            break;
                        },
                        Some(x) => x,
                    };
                    if nxt <= last || nxt >= events.len() {
                        break;
                    }
                    let mut step: Option<(SyntaxKind, Option<usize>)> = None;
                    match &events[nxt] {
                        Event::StartNode { kind: k2, forward_parent: f2 } => {
                            step = Some((*k2, *f2));
                        },
                        _ => {},
                    }
                    match step {
                        None => {
                            break;
                        },
                        Some((k2, f2)) => {
                            kinds.push(k2);
                            events.set(nxt, Event::Placeholder);
                            proof {
                                assert forall|k: int|
                                    idx <= k < orig.len() implies ((#[trigger] events@[k]) is Error
                                    || orig[k] is Error ==> events@[k] == orig[k]) by {}
                            }
                            last = nxt;
                            fp = f2;
                        },
                    }
                }
                // open the collected nodes outermost-first
                let mut q = kinds.len();
                while q > 0
                    invariant
                        q <= kinds@.len(),
                        builder.stack@.len() >= 1,
                        builder.stack@[0].0 == SyntaxKind::Root,
                        stack_idents(builder.stack@),
                        stack_text(builder.stack@) == concat_texts(tokens@.take(c as int)),
                        stack_leaves(builder.stack@) == leaves_of(tokens@.take(c as int)),
                        c <= tokens@.len(),
                        idents_ok(tokens@),
                    decreases q,
                {
                    q = q - 1;
                    let ghost old_stack = builder.stack@;
                    builder.start_node(kinds[q]);
                    proof {
                        assert(builder.stack@[0] == old_stack[0]);
                    }
                }
            },
            Event::AddToken => {
                proof {
                    assert(!(orig[idx as int] is Error));
                }
                while c < tokens.len() && tokens[c].kind.is_trivia()
                    invariant
                        c <= tokens@.len(),
                        idents_ok(tokens@),
                        builder.stack@.len() >= 1,
                        builder.stack@[0].0 == SyntaxKind::Root,
                        stack_idents(builder.stack@),
                        stack_text(builder.stack@) == concat_texts(tokens@.take(c as int)),
                        stack_leaves(builder.stack@) == leaves_of(tokens@.take(c as int)),
                    decreases tokens@.len() - c,
                {
                    attach_token(&mut builder, tokens, c);
                    c = c + 1;
                }
                if c < tokens.len() {
                    attach_token(&mut builder, tokens, c);
                    c = c + 1;
                }
            },
            Event::FinishNode => {
                proof {
                    assert(!(orig[idx as int] is Error));
                }
                if builder.depth() >= 2 {
                    let ghost old_stack = builder.stack@;
                    builder.finish_node();
                    proof {
                        if old_stack.len() == 2 {
                            assert(builder.stack@.last() == builder.stack@[0]);
                            assert(builder.stack@.last().0 == old_stack[0].0);
                        } else {
                            assert(builder.stack@[0] == old_stack[0]);
                        }
                    }
                }
            },
            Event::Error(e) => {
                proof {
                    assert(events@[idx as int] is Error);
                    assert(events@[idx as int] == orig[idx as int]);
                }
                let m = error_message(file_id, e);
                let ghost gm = m;
                msgs.push(m);
                proof {
                    assert(msg_models(msgs@) =~= msg_models(old_msgs).push(msg_model(gm)));
                    assert(msg_models(old_msgs) + seq![error_model(*e)] =~= msg_models(
                        old_msgs,
                    ).push(msg_model(gm)));
                }
            },
            Event::Placeholder => {
                proof {
                    assert(!(orig[idx as int] is Error));
                }
            },
        }
        proof {
            if !(orig[idx as int] is Error) {
                assert(events_msgs(orig.take(idx as int + 1)) == events_msgs(
                    orig.take(idx as int),
                ) + Seq::<MsgModel>::empty());
                assert(events_msgs(orig.take(idx as int)) + Seq::<MsgModel>::empty()
                    =~= events_msgs(orig.take(idx as int)));
            }
        }
        idx = idx + 1;
    }

    // whatever tokens remain attach to the innermost open node, which after a
    // well-formed event stream is the root
    while c < tokens.len()
        invariant
            c <= tokens@.len(),
            idents_ok(tokens@),
            builder.stack@.len() >= 1,
            builder.stack@[0].0 == SyntaxKind::Root,
            stack_idents(builder.stack@),
            stack_text(builder.stack@) == concat_texts(tokens@.take(c as int)),
            stack_leaves(builder.stack@) == leaves_of(tokens@.take(c as int)),
        decreases tokens@.len() - c,
    {
        attach_token(&mut builder, tokens, c);
        c = c + 1;
    }
    proof {
        assert(tokens@.take(tokens@.len() as int) =~= tokens@);
    }
    while builder.depth() > 1
        invariant
            builder.stack@.len() >= 1,
            builder.stack@[0].0 == SyntaxKind::Root,
            stack_idents(builder.stack@),
            stack_text(builder.stack@) == concat_texts(tokens@),
            stack_leaves(builder.stack@) == leaves_of(tokens@),
        decreases builder.stack@.len(),
    {
        let ghost old_stack = builder.stack@;
        builder.finish_node();
        proof {
            if old_stack.len() == 2 {
                assert(builder.stack@.last() == builder.stack@[0]);
                assert(builder.stack@.last().0 == old_stack[0].0);
            } else {
                assert(builder.stack@[0] == old_stack[0]);
            }
        }
    }
    proof {
        assert(orig.take(n as int) =~= orig);
    }
    let root = builder.finish();
    (root, msgs)
}

/// The messages derived from a token list whose ranges lie in order are
/// themselves ordered by starting offset, each at or after the first token.
proof fn lemma_issue_msgs_sorted_from<FileId>(
    units: Seq<crate::lexer::LexUnit>,
    toks: Seq<Token>,
    file_id: FileId,
)
    requires
        units.len() == toks.len(),
        forall|i: int| 0 <= i < toks.len() ==> (#[trigger] toks[i].range).end >= toks[i].range.start,
        forall|i: int|
            1 <= i < toks.len() ==> (#[trigger] toks[i].range).start >= toks[i - 1].range.end,
    ensures
        sorted_by_start(msg_models(crate::lexer::issue_messages(units, toks, file_id))),
        forall|k: int|
            0 <= k < crate::lexer::issue_messages(units, toks, file_id).len() && toks.len() > 0
                ==> (#[trigger] msg_models(crate::lexer::issue_messages(units, toks, file_id))[
            k]).start >= toks[0].range.start,
    decreases units.len(),
{
    let whole = crate::lexer::issue_messages(units, toks, file_id);
    if units.len() == 0 || toks.len() == 0 {
    } else {
        assert forall|i: int|
            0 <= i < toks.drop_first().len() implies (#[trigger] toks.drop_first()[
            i].range).end >= toks.drop_first()[i].range.start by {
            assert(toks.drop_first()[i] == toks[i + 1]);
        }
        assert forall|i: int|
            1 <= i < toks.drop_first().len() implies (#[trigger] toks.drop_first()[
            i].range).start >= toks.drop_first()[i - 1].range.end by {
            assert(toks.drop_first()[i] == toks[i + 1]);
            assert(toks.drop_first()[i - 1] == toks[i]);
        }
        lemma_issue_msgs_sorted_from(units.drop_first(), toks.drop_first(), file_id);
        let rest = crate::lexer::issue_messages(units.drop_first(), toks.drop_first(), file_id);
        // whatever the rest starts with, it lies at or after the second token,
        // which lies at or after the first
        assert forall|k: int| 0 <= k < rest.len() implies (#[trigger] msg_models(rest)[k]).start
            >= toks[0].range.start by {
            if toks.drop_first().len() > 0 {
                assert(msg_models(rest)[k].start >= toks.drop_first()[0].range.start);
                assert(toks.drop_first()[0] == toks[1]);
            }
        }
        match units[0].issue {
            None => {
                assert(whole == rest);
            },
            Some(iss) => {
                let head = Message {
                    file_id,
                    kind: crate::lexer::issue_to_kind(iss),
                    range: toks[0].range,
                };
                assert(whole == seq![head] + rest);
                assert forall|k: int| 0 <= k < whole.len() implies (#[trigger] msg_models(whole)[
                k]).start >= toks[0].range.start by {
                    if k == 0 {
                        assert(whole[0] == head);
                    } else {
                        assert(whole[k] == rest[k - 1]);
                        assert(msg_models(whole)[k] == msg_models(rest)[k - 1]);
                    }
                }
                assert forall|k: int| 0 < k < whole.len() implies (#[trigger] msg_models(whole)[
                k]).start >= msg_models(whole)[k - 1].start by {
                    assert(whole[k] == rest[k - 1]);
                    assert(msg_models(whole)[k] == msg_models(rest)[k - 1]);
                    if k == 1 {
                        assert(whole[0] == head);
                        assert(msg_models(rest)[0].start >= toks[0].range.start);
                    } else {
                        assert(whole[k - 1] == rest[k - 2]);
                        assert(msg_models(whole)[k - 1] == msg_models(rest)[k - 2]);
                    }
                }
            },
        }
    }
}

/// The lexer's messages come ordered by starting offset.
pub proof fn lemma_tokenize_msgs_sorted<FileId>(
    cs: Seq<char>,
    toks: Seq<Token>,
    msgs: Seq<Message<FileId>>,
    file_id: FileId,
)
    requires
        crate::lexer::tokenize_post(cs, toks, msgs, file_id),
    ensures
        sorted_by_start(msg_models(msgs)),
{
    assert forall|i: int| 0 <= i < toks.len() implies (#[trigger] toks[i].range).end
        >= toks[i].range.start by {
        crate::token::lemma_byte_len_bounds(toks[i].text@);
    }
    assert forall|i: int| 1 <= i < toks.len() implies (#[trigger] toks[i].range).start
        >= toks[i - 1].range.end by {
        assert(toks[i].range.start == toks[i - 1].range.end);
    }
    lemma_issue_msgs_sorted_from(crate::lexer::spec_units(cs), toks, file_id);
}

/// No message of the list reports an inconsistent dedent.
pub open spec fn none_inconsistent(ms: Seq<MsgModel>) -> bool {
    forall|k: int| 0 <= k < ms.len() ==> (#[trigger] ms[k]).kind != DiagModel::Inconsistent
}

/// The messages of the list that report an inconsistent dedent, in order.
pub open spec fn inconsistent_models(ms: Seq<MsgModel>) -> Seq<MsgModel>
    decreases ms.len(),
{
    if ms.len() == 0 {
        Seq::empty()
    } else {
        let rest = inconsistent_models(ms.drop_first());
        if ms[0].kind == DiagModel::Inconsistent {
            seq![ms[0]] + rest
        } else {
            rest
        }
    }
}

/// The inconsistent-dedent messages that stand for the given line ranges.
pub open spec fn dedent_msg_models(ps: Seq<(int, int)>) -> Seq<MsgModel> {
    Seq::new(ps.len(), |k: int| MsgModel { kind: DiagModel::Inconsistent, start: ps[k].0, end: ps[k].1 })
}

/// Merging in a list without inconsistent dedents leaves the other list's
/// inconsistent dedents, in order.
proof fn lemma_merge_filter_left(a: Seq<MsgModel>, b: Seq<MsgModel>)
    requires
        none_inconsistent(a),
    ensures
        inconsistent_models(merge_models(a, b)) == inconsistent_models(b),
    decreases a.len() + b.len(),
{
    if a.len() == 0 {
    } else if b.len() == 0 {
        lemma_filter_empty(a);
    } else if a[0].start <= b[0].start {
        assert forall|k: int| 0 <= k < a.drop_first().len() implies (#[trigger] a.drop_first()[
        k]).kind != DiagModel::Inconsistent by {
            assert(a.drop_first()[k] == a[k + 1]);
        }
        lemma_merge_filter_left(a.drop_first(), b);
        let whole = seq![a[0]] + merge_models(a.drop_first(), b);
        assert(whole.drop_first() =~= merge_models(a.drop_first(), b));
        assert(whole[0] == a[0]);
        assert(a[0].kind != DiagModel::Inconsistent);
    } else {
        lemma_merge_filter_left(a, b.drop_first());
        let whole = seq![b[0]] + merge_models(a, b.drop_first());
        assert(whole.drop_first() =~= merge_models(a, b.drop_first()));
        assert(whole[0] == b[0]);
        if b[0].kind == DiagModel::Inconsistent {
            assert(inconsistent_models(whole) == seq![b[0]] + inconsistent_models(
                merge_models(a, b.drop_first()),
            ));
            assert(inconsistent_models(b) == seq![b[0]] + inconsistent_models(b.drop_first()));
        } else {
            assert(inconsistent_models(b) == inconsistent_models(b.drop_first()));
        }
    }
}

/// Merging in a list without inconsistent dedents, on the right.
proof fn lemma_merge_filter_right(a: Seq<MsgModel>, b: Seq<MsgModel>)
    requires
        none_inconsistent(b),
    ensures
        inconsistent_models(merge_models(a, b)) == inconsistent_models(a),
    decreases a.len() + b.len(),
{
    if a.len() == 0 {
        lemma_filter_empty(b);
    } else if b.len() == 0 {
    } else if a[0].start <= b[0].start {
        lemma_merge_filter_right(a.drop_first(), b);
        let whole = seq![a[0]] + merge_models(a.drop_first(), b);
        assert(whole.drop_first() =~= merge_models(a.drop_first(), b));
        assert(whole[0] == a[0]);
        if a[0].kind == DiagModel::Inconsistent {
            assert(inconsistent_models(whole) == seq![a[0]] + inconsistent_models(
                merge_models(a.drop_first(), b),
            ));
            assert(inconsistent_models(a) == seq![a[0]] + inconsistent_models(a.drop_first()));
        } else {
            assert(inconsistent_models(a) == inconsistent_models(a.drop_first()));
        }
    } else {
        assert forall|k: int| 0 <= k < b.drop_first().len() implies (#[trigger] b.drop_first()[
        k]).kind != DiagModel::Inconsistent by {
            assert(b.drop_first()[k] == b[k + 1]);
        }
        lemma_merge_filter_right(a, b.drop_first());
        let whole = seq![b[0]] + merge_models(a, b.drop_first());
        assert(whole.drop_first() =~= merge_models(a, b.drop_first()));
        assert(whole[0] == b[0]);
        assert(b[0].kind != DiagModel::Inconsistent);
    }
}

/// A list without inconsistent dedents filters to nothing.
proof fn lemma_filter_empty(ms: Seq<MsgModel>)
    requires
        none_inconsistent(ms),
    ensures
        inconsistent_models(ms) == Seq::<MsgModel>::empty(),
    decreases ms.len(),
{
    if ms.len() > 0 {
        assert forall|k: int| 0 <= k < ms.drop_first().len() implies (#[trigger] ms.drop_first()[
        k]).kind != DiagModel::Inconsistent by {
            assert(ms.drop_first()[k] == ms[k + 1]);
        }
        lemma_filter_empty(ms.drop_first());
    }
}

/// A list of only inconsistent dedents filters to itself.
proof fn lemma_filter_identity(ms: Seq<MsgModel>)
    requires
        forall|k: int| 0 <= k < ms.len() ==> (#[trigger] ms[k]).kind == DiagModel::Inconsistent,
    ensures
        inconsistent_models(ms) == ms,
    decreases ms.len(),
{
    if ms.len() > 0 {
        assert forall|k: int| 0 <= k < ms.drop_first().len() implies (#[trigger] ms.drop_first()[
        k]).kind == DiagModel::Inconsistent by {
            assert(ms.drop_first()[k] == ms[k + 1]);
        }
        lemma_filter_identity(ms.drop_first());
        assert(seq![ms[0]] + ms.drop_first() =~= ms);
    }
}

/// The lexer never reports an inconsistent dedent.
pub proof fn lemma_lex_msgs_not_inconsistent<FileId>(
    units: Seq<crate::lexer::LexUnit>,
    toks: Seq<Token>,
    file_id: FileId,
)
    ensures
        none_inconsistent(msg_models(crate::lexer::issue_messages(units, toks, file_id))),
    decreases units.len(),
{
    let whole = crate::lexer::issue_messages(units, toks, file_id);
    if units.len() == 0 || toks.len() == 0 {
    } else {
        lemma_lex_msgs_not_inconsistent(units.drop_first(), toks.drop_first(), file_id);
        let rest = crate::lexer::issue_messages(units.drop_first(), toks.drop_first(), file_id);
        match units[0].issue {
            None => {
                assert(whole == rest);
            },
            Some(iss) => {
                assert forall|k: int| 0 <= k < whole.len() implies (#[trigger] msg_models(whole)[
                k]).kind != DiagModel::Inconsistent by {
                    if k == 0 {
                        assert(whole[0] == (Message {
                            file_id,
                            kind: crate::lexer::issue_to_kind(iss),
                            range: toks[0].range,
                        }));
                    } else {
                        assert(whole[k] == rest[k - 1]);
                        assert(msg_models(whole)[k] == msg_models(rest)[k - 1]);
                    }
                }
            },
        }
    }
}

/// The parser's error events never report an inconsistent dedent.
pub proof fn lemma_events_msgs_not_inconsistent(evs: Seq<Event>)
    ensures
        none_inconsistent(events_msgs(evs)),
    decreases evs.len(),
{
    if evs.len() > 0 {
        lemma_events_msgs_not_inconsistent(evs.drop_first());
        let rest = events_msgs(evs.drop_first());
        match evs[0] {
            Event::Error(e) => {
                let whole = seq![error_model(e)] + rest;
                assert forall|k: int| 0 <= k < whole.len() implies (#[trigger] whole[k]).kind
                    != DiagModel::Inconsistent by {
                    if k == 0 {
                        assert(whole[0] == error_model(e));
                    } else {
                        assert(whole[k] == rest[k - 1]);
                    }
                }
            },
            _ => {},
        }
    }
}

/// Of the whole merged message list, the inconsistent dedents are exactly
/// those the rewriter recorded, in order: the lexical and syntactic messages
/// never carry that kind.
pub proof fn lemma_inconsistent_through_merges(
    lex: Seq<MsgModel>,
    ind: Seq<MsgModel>,
    par: Seq<MsgModel>,
)
    requires
        none_inconsistent(lex),
        none_inconsistent(par),
        forall|k: int| 0 <= k < ind.len() ==> (#[trigger] ind[k]).kind == DiagModel::Inconsistent,
    ensures
        inconsistent_models(merge_models(merge_models(lex, ind), par)) == ind,
{
    lemma_merge_filter_right(merge_models(lex, ind), par);
    lemma_merge_filter_left(lex, ind);
    lemma_filter_identity(ind);
}

/// A diagnostic the lexer can report.
pub open spec fn is_lexical_kind(d: DiagModel) -> bool {
    match d {
        DiagModel::BadChar(_) => true,
        DiagModel::Unterminated(_) => true,
        DiagModel::BadEscape(_) => true,
        _ => false,
    }
}

/// No message of the list is a lexical diagnostic.
pub open spec fn none_lexical(ms: Seq<MsgModel>) -> bool {
    forall|k: int| 0 <= k < ms.len() ==> !is_lexical_kind((#[trigger] ms[k]).kind)
}

/// The lexical diagnostics of the list, in order.
pub open spec fn lexical_models(ms: Seq<MsgModel>) -> Seq<MsgModel>
    decreases ms.len(),
{
    if ms.len() == 0 {
        Seq::empty()
    } else {
        let rest = lexical_models(ms.drop_first());
        if is_lexical_kind(ms[0].kind) {
            seq![ms[0]] + rest
        } else {
            rest
        }
    }
}

proof fn lemma_lexical_filter_empty(ms: Seq<MsgModel>)
    requires
        none_lexical(ms),
    ensures
        lexical_models(ms) == Seq::<MsgModel>::empty(),
    decreases ms.len(),
{
    if ms.len() > 0 {
        assert forall|k: int| 0 <= k < ms.drop_first().len() implies !is_lexical_kind(
            (#[trigger] ms.drop_first()[k]).kind,
        ) by {
            assert(ms.drop_first()[k] == ms[k + 1]);
        }
        lemma_lexical_filter_empty(ms.drop_first());
    }
}

proof fn lemma_lexical_filter_identity(ms: Seq<MsgModel>)
    requires
        forall|k: int| 0 <= k < ms.len() ==> is_lexical_kind((#[trigger] ms[k]).kind),
    ensures
        lexical_models(ms) == ms,
    decreases ms.len(),
{
    if ms.len() > 0 {
        assert forall|k: int| 0 <= k < ms.drop_first().len() implies is_lexical_kind(
            (#[trigger] ms.drop_first()[k]).kind,
        ) by {
            assert(ms.drop_first()[k] == ms[k + 1]);
        }
        lemma_lexical_filter_identity(ms.drop_first());
        assert(seq![ms[0]] + ms.drop_first() =~= ms);
    }
}

proof fn lemma_merge_lexical_filter_right(a: Seq<MsgModel>, b: Seq<MsgModel>)
    requires
        none_lexical(b),
    ensures
        lexical_models(merge_models(a, b)) == lexical_models(a),
    decreases a.len() + b.len(),
{
    if a.len() == 0 {
        lemma_lexical_filter_empty(b);
    } else if b.len() == 0 {
    } else if a[0].start <= b[0].start {
        lemma_merge_lexical_filter_right(a.drop_first(), b);
        let whole = seq![a[0]] + merge_models(a.drop_first(), b);
        assert(whole.drop_first() =~= merge_models(a.drop_first(), b));
        assert(whole[0] == a[0]);
        if is_lexical_kind(a[0].kind) {
            assert(lexical_models(whole) == seq![a[0]] + lexical_models(
                merge_models(a.drop_first(), b),
            ));
            assert(lexical_models(a) == seq![a[0]] + lexical_models(a.drop_first()));
        } else {
            assert(lexical_models(a) == lexical_models(a.drop_first()));
        }
    } else {
        assert forall|k: int| 0 <= k < b.drop_first().len() implies !is_lexical_kind(
            (#[trigger] b.drop_first()[k]).kind,
        ) by {
            assert(b.drop_first()[k] == b[k + 1]);
        }
        lemma_merge_lexical_filter_right(a, b.drop_first());
        let whole = seq![b[0]] + merge_models(a, b.drop_first());
        assert(whole.drop_first() =~= merge_models(a, b.drop_first()));
        assert(whole[0] == b[0]);
        assert(!is_lexical_kind(b[0].kind));
    }
}

/// Every message the text's lexical twin prescribes is a lexical diagnostic.
pub proof fn lemma_lex_msg_models_lexical(cs: Seq<char>, i: int, off: int)
    ensures
        forall|k: int|
            0 <= k < crate::lexer::lex_msg_models_from(cs, i, off).len() ==> is_lexical_kind(
                (#[trigger] crate::lexer::lex_msg_models_from(cs, i, off)[k]).kind,
            ),
    decreases cs.len() - i,
{
    if i < 0 || i >= cs.len() {
    } else {
        let u = crate::lexer::next_unit(cs.skip(i));
        let l = if u.len < 1 {
            1
        } else if u.len > cs.len() - i {
            cs.len() - i
        } else {
            u.len
        };
        let w = crate::token::byte_len(cs.subrange(i, i + l));
        lemma_lex_msg_models_lexical(cs, i + l, off + w);
        let rest = crate::lexer::lex_msg_models_from(cs, i + l, off + w);
        let whole = crate::lexer::lex_msg_models_from(cs, i, off);
        match u.issue {
            None => {},
            Some(iss) => {
                assert forall|k: int| 0 <= k < whole.len() implies is_lexical_kind(
                    (#[trigger] whole[k]).kind,
                ) by {
                    if k == 0 {
                        assert(whole[0].kind == kind_model(crate::lexer::issue_to_kind(iss)));
                    } else {
                        assert(whole[k] == rest[k - 1]);
                    }
                }
            },
        }
    }
}

/// Of the whole merged message list, the lexical diagnostics are exactly the
/// lexer's: the rewriter and the parser never produce them.
pub proof fn lemma_lexical_through_merges(
    lex: Seq<MsgModel>,
    ind: Seq<MsgModel>,
    par: Seq<MsgModel>,
)
    requires
        forall|k: int| 0 <= k < lex.len() ==> is_lexical_kind((#[trigger] lex[k]).kind),
        none_lexical(ind),
        none_lexical(par),
    ensures
        lexical_models(merge_models(merge_models(lex, ind), par)) == lex,
{
    lemma_merge_lexical_filter_right(merge_models(lex, ind), par);
    lemma_merge_lexical_filter_right(lex, ind);
    lemma_lexical_filter_identity(lex);
}

/// The parser's error events never report a lexical diagnostic.
pub proof fn lemma_events_msgs_not_lexical(evs: Seq<Event>)
    ensures
        none_lexical(events_msgs(evs)),
    decreases evs.len(),
{
    if evs.len() > 0 {
        lemma_events_msgs_not_lexical(evs.drop_first());
        let rest = events_msgs(evs.drop_first());
        match evs[0] {
            Event::Error(e) => {
                let whole = seq![error_model(e)] + rest;
                assert forall|k: int| 0 <= k < whole.len() implies !is_lexical_kind(
                    (#[trigger] whole[k]).kind,
                ) by {
                    if k == 0 {
                        assert(whole[0] == error_model(e));
                    } else {
                        assert(whole[k] == rest[k - 1]);
                    }
                }
            },
            _ => {},
        }
    }
}

} // verus!
