//! The deterministic tree printer: one line per node or token, written
//! `KIND@start..end`, tokens followed by their text in quotes, children
//! indented by two spaces per depth.

use vstd::prelude::*;

use crate::green::{
    child_byte_len, child_text, forest_text, node_byte_len, node_text, GreenChild, GreenNode,
};
use crate::syntax::{debug_name, debug_name_view, SyntaxKind};
use crate::token::{byte_len, lemma_byte_len_concat};

verus! {

pub open spec fn digit_char(d: int) -> char {
    if d == 0 { '0' }
    else if d == 1 { '1' }
    else if d == 2 { '2' }
    else if d == 3 { '3' }
    else if d == 4 { '4' }
    else if d == 5 { '5' }
    else if d == 6 { '6' }
    else if d == 7 { '7' }
    else if d == 8 { '8' }
    else { '9' }
}

/// The decimal digits of `n`.
pub open spec fn dec_chars(n: int) -> Seq<char>
    decreases n,
{
    if n < 10 {
        seq![digit_char(n)]
    } else {
        dec_chars(n / 10) + seq![digit_char(n % 10)]
    }
}

fn append_digit(out: &mut String, d: usize)
    requires
        d < 10,
    ensures
        final(out)@ == old(out)@ + seq![digit_char(d as int)],
{
    if d == 0 {
        out.append("0");
        proof { reveal_strlit("0"); assert("0"@ =~= seq![digit_char(0)]); }
    } else if d == 1 {
        out.append("1");
        proof { reveal_strlit("1"); assert("1"@ =~= seq![digit_char(1)]); }
    } else if d == 2 {
        out.append("2");
        proof { reveal_strlit("2"); assert("2"@ =~= seq![digit_char(2)]); }
    } else if d == 3 {
        out.append("3");
        proof { reveal_strlit("3"); assert("3"@ =~= seq![digit_char(3)]); }
    } else if d == 4 {
        out.append("4");
        proof { reveal_strlit("4"); assert("4"@ =~= seq![digit_char(4)]); }
    } else if d == 5 {
        out.append("5");
        proof { reveal_strlit("5"); assert("5"@ =~= seq![digit_char(5)]); }
    } else if d == 6 {
        out.append("6");
        proof { reveal_strlit("6"); assert("6"@ =~= seq![digit_char(6)]); }
    } else if d == 7 {
        out.append("7");
        proof { reveal_strlit("7"); assert("7"@ =~= seq![digit_char(7)]); }
    } else if d == 8 {
        out.append("8");
        proof { reveal_strlit("8"); assert("8"@ =~= seq![digit_char(8)]); }
    } else {
        out.append("9");
        proof { reveal_strlit("9"); assert("9"@ =~= seq![digit_char(9)]); }
    }
}

/// Appends `n` in decimal.
fn append_number(out: &mut String, n: usize)
    ensures
        final(out)@ == old(out)@ + dec_chars(n as int),
    decreases n,
{
    if n < 10 {
        append_digit(out, n);
    } else {
        append_number(out, n / 10);
        let ghost mid = out@;
        append_digit(out, n % 10);
        proof {
            assert((old(out)@ + dec_chars(n as int / 10)) + seq![digit_char(n as int % 10)]
                =~= old(out)@ + (dec_chars(n as int / 10) + seq![digit_char(n as int % 10)]));
        }
    }
}

/// How a character appears inside the printed token text.
pub open spec fn escape_char(c: char) -> Seq<char> {
    if c == '\\' { seq!['\\', '\\'] }
    else if c == '"' { seq!['\\', '"'] }
    else if c == '\n' { seq!['\\', 'n'] }
    else if c == '\r' { seq!['\\', 'r'] }
    else if c == '\t' { seq!['\\', 't'] }
    else { seq![c] }
}

/// The token text with its escapes applied.
pub open spec fn escaped(cs: Seq<char>) -> Seq<char>
    decreases cs.len(),
{
    if cs.len() == 0 {
        Seq::empty()
    } else {
        escape_char(cs[0]) + escaped(cs.drop_first())
    }
}

proof fn lemma_escaped_push(cs: Seq<char>, c: char)
    ensures
        escaped(cs.push(c)) == escaped(cs) + escape_char(c),
    decreases cs.len(),
{
    if cs.len() == 0 {
        assert(cs.push(c).drop_first() =~= Seq::<char>::empty());
        assert(cs.push(c)[0] == c);
        assert(escaped(Seq::<char>::empty()) == Seq::<char>::empty());
        assert(escape_char(c) + Seq::<char>::empty() =~= escape_char(c));
        assert(escaped(cs) + escape_char(c) =~= escape_char(c));
    } else {
        assert(cs.push(c).drop_first() =~= cs.drop_first().push(c));
        assert(cs.push(c)[0] == cs[0]);
        lemma_escaped_push(cs.drop_first(), c);
        assert(escape_char(cs[0]) + (escaped(cs.drop_first()) + escape_char(c)) =~= (escape_char(
            cs[0],
        ) + escaped(cs.drop_first())) + escape_char(c));
    }
}

/// Appends the text of `t` with escapes applied.
fn append_escaped(out: &mut String, t: &str)
    ensures
        final(out)@ == old(out)@ + escaped(t@),
{
    let n = t.unicode_len();
    let mut i: usize = 0;
    proof {
        assert(t@.take(0) =~= Seq::<char>::empty());
        assert(old(out)@ + escaped(t@.take(0)) =~= old(out)@);
    }
    while i < n
        invariant
            i <= n,
            n == t@.len(),
            out@ == old(out)@ + escaped(t@.take(i as int)),
        decreases n - i,
    {
        let c = t.get_char(i);
        let ghost pre = out@;
        if c == '\\' {
            out.append("\\\\");
            proof { reveal_strlit("\\\\"); assert("\\\\"@ =~= escape_char('\\')); }
        } else if c == '"' {
            out.append("\\\"");
            proof { reveal_strlit("\\\""); assert("\\\""@ =~= escape_char('"')); }
        } else if c == '\n' {
            out.append("\\n");
            proof { reveal_strlit("\\n"); assert("\\n"@ =~= escape_char('\n')); }
        } else if c == '\r' {
            out.append("\\r");
            proof { reveal_strlit("\\r"); assert("\\r"@ =~= escape_char('\r')); }
        } else if c == '\t' {
            out.append("\\t");
            proof { reveal_strlit("\\t"); assert("\\t"@ =~= escape_char('\t')); }
        } else {
            let piece = t.substring_char(i, i + 1);
            out.append(piece);
            proof {
                assert(piece@ =~= seq![t@[i as int]]);
                assert(seq![t@[i as int]] =~= escape_char(t@[i as int]));
            }
        }
        proof {
            assert(t@.take(i as int + 1) =~= t@.take(i as int).push(t@[i as int]));
            lemma_escaped_push(t@.take(i as int), t@[i as int]);
            assert((old(out)@ + escaped(t@.take(i as int))) + escape_char(t@[i as int]) =~= old(
                out,
            )@ + escaped(t@.take(i as int + 1)));
        }
        i = i + 1;
    }
    proof {
        assert(t@.take(n as int) =~= t@);
    }
}

/// One printed line for a node and, below it, its children; `ind` is the
/// indentation of this line.
pub open spec fn render_node(n: GreenNode, off: int, ind: Seq<char>) -> Seq<char>
    decreases n, 1int,
{
    ind + debug_name_view(n.kind) + "@"@ + dec_chars(off) + ".."@ + dec_chars(
        off + byte_len(node_text(n)),
    ) + "\n"@ + render_forest(n.children@, off, ind + "  "@)
}

pub open spec fn render_child(c: GreenChild, off: int, ind: Seq<char>) -> Seq<char>
    decreases c, 2int,
{
    match c {
        GreenChild::Node(n) => render_node(n, off, ind),
        GreenChild::Token(t) => ind + debug_name_view(t.kind) + "@"@ + dec_chars(off) + ".."@
            + dec_chars(off + byte_len(t.text@)) + " \""@ + escaped(t.text@) + "\"\n"@,
    }
}

pub open spec fn render_forest(s: Seq<GreenChild>, off: int, ind: Seq<char>) -> Seq<char>
    decreases s, 3int,
{
    if s.len() == 0 {
        Seq::empty()
    } else {
        render_child(s[0], off, ind) + render_forest(
            s.drop_first(),
            off + byte_len(child_text(s[0])),
            ind,
        )
    }
}

/// Appends the printed form of the node and its subtree.
#[verifier::rlimit(100)]
pub fn render_node_into(out: &mut String, n: &GreenNode, off: usize, ind: &str)
    requires
        off + byte_len(node_text(*n)) <= usize::MAX,
    ensures
        final(out)@ == old(out)@ + render_node(*n, off as int, ind@),
    decreases *n, 1int,
{
    out.append(ind);
    let name = debug_name(n.kind);
    out.append(name.as_str());
    out.append("@");
    append_number(out, off);
    out.append("..");
    let w = node_byte_len(n);
    append_number(out, off + w);
    out.append("\n");
    let ghost header = out@;

    let mut deeper = ind.to_owned();
    deeper.append("  ");
    let ghost ind1 = ind@ + "  "@;

    let mut cur = off;
    let mut i: usize = 0;
    proof {
        assert(n.children@.skip(0) =~= n.children@);
        assert(n.children@.take(0) =~= Seq::<GreenChild>::empty());
        assert(crate::green::forest_text(Seq::<GreenChild>::empty()) == Seq::<char>::empty());
        assert(byte_len(Seq::<char>::empty()) == 0);
    }
    while i < n.children.len()
        invariant
            i <= n.children@.len(),
            deeper@ == ind1,
            cur as int == off + byte_len(forest_text(n.children@.take(i as int))),
            off + byte_len(node_text(*n)) <= usize::MAX,
            header + render_forest(n.children@, off as int, ind1) == out@ + render_forest(
                n.children@.skip(i as int),
                cur as int,
                ind1,
            ),
        decreases n.children@.len() - i,
    {
        proof {
            assert(n.children@.skip(i as int)[0] == n.children@[i as int]);
            assert(n.children@.skip(i as int).drop_first() =~= n.children@.skip(i as int + 1));
            // the remaining bytes fit, so the child's do
            assert(n.children@ =~= n.children@.take(i as int) + n.children@.skip(i as int));
            crate::green::lemma_forest_text_concat(
                n.children@.take(i as int),
                n.children@.skip(i as int),
            );
            lemma_byte_len_concat(
                forest_text(n.children@.take(i as int)),
                forest_text(n.children@.skip(i as int)),
            );
            assert(forest_text(n.children@.skip(i as int)) == child_text(n.children@[i as int])
                + forest_text(n.children@.skip(i as int).drop_first()));
            lemma_byte_len_concat(
                child_text(n.children@[i as int]),
                forest_text(n.children@.skip(i as int + 1)),
            );
            crate::token::lemma_byte_len_bounds(forest_text(n.children@.skip(i as int + 1)));
            crate::token::lemma_byte_len_bounds(child_text(n.children@[i as int]));
        }
        let ghost pre = out@;
        render_child_into(out, &n.children[i], cur, deeper.as_str());
        let cw = child_byte_len(&n.children[i]);
        proof {
            assert((pre + render_child(n.children@[i as int], cur as int, ind1)) + render_forest(
                n.children@.skip(i as int + 1),
                cur as int + cw as int,
                ind1,
            ) =~= pre + (render_child(n.children@[i as int], cur as int, ind1) + render_forest(
                n.children@.skip(i as int + 1),
                cur as int + cw as int,
                ind1,
            )));
            assert(n.children@.take(i as int + 1) =~= n.children@.take(i as int).push(
                n.children@[i as int],
            ));
            crate::green::lemma_forest_text_push(
                n.children@.take(i as int),
                n.children@[i as int],
            );
            lemma_byte_len_concat(
                forest_text(n.children@.take(i as int)),
                child_text(n.children@[i as int]),
            );
        }
        cur = cur + cw;
        i = i + 1;
    }
    proof {
        assert(n.children@.skip(n.children@.len() as int) =~= Seq::<GreenChild>::empty());
        assert(render_forest(Seq::<GreenChild>::empty(), cur as int, ind1) == Seq::<char>::empty());
        assert(out@ + Seq::<char>::empty() =~= out@);
        assert(out@ == header + render_forest(n.children@, off as int, ind1));
        assert(header =~= old(out)@ + (ind@ + debug_name_view(n.kind) + "@"@ + dec_chars(
            off as int,
        ) + ".."@ + dec_chars(off as int + byte_len(node_text(*n))) + "\n"@));
        assert(out@ =~= old(out)@ + render_node(*n, off as int, ind@));
    }
}

/// Appends the printed form of one child.
#[verifier::rlimit(100)]
pub fn render_child_into(out: &mut String, c: &GreenChild, off: usize, ind: &str)
    requires
        off + byte_len(child_text(*c)) <= usize::MAX,
    ensures
        final(out)@ == old(out)@ + render_child(*c, off as int, ind@),
    decreases *c, 2int,
{
    match c {
        GreenChild::Node(n) => {
            render_node_into(out, n, off, ind);
        },
        GreenChild::Token(t) => {
            out.append(ind);
            let name = debug_name(t.kind);
            out.append(name.as_str());
            out.append("@");
            append_number(out, off);
            out.append("..");
            proof {
                crate::token::lemma_byte_len_is_utf8_len(t.text@);
            }
            let w = t.text.as_str().as_bytes().len();
            append_number(out, off + w);
            out.append(" \"");
            append_escaped(out, t.text.as_str());
            out.append("\"\n");
            proof {
                assert(out@ =~= old(out)@ + render_child(*c, off as int, ind@));
            }
        },
    }
}

} // verus!
