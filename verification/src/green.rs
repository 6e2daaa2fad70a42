//! The green tree: an immutable tree of nodes and tokens in which each token
//! stores its kind and its verbatim text, and each node its kind and its
//! children. Offsets are not stored; they are derived from the text lengths
//! of the children, so subtrees are position-independent.

use vstd::prelude::*;

use crate::syntax::SyntaxKind;

verus! {

/// A leaf of the green tree: a token with its verbatim text.
#[derive(Debug, PartialEq, Eq)]
pub struct GreenToken {
    pub kind: SyntaxKind,
    pub text: String,
}

/// A child of a green node.
#[derive(Debug, PartialEq, Eq)]
pub enum GreenChild {
    Node(GreenNode),
    Token(GreenToken),
}

/// An interior node of the green tree.
#[derive(Debug, PartialEq, Eq)]
pub struct GreenNode {
    pub kind: SyntaxKind,
    pub children: Vec<GreenChild>,
}

/// The text of a node: the texts of its descendant tokens, in pre-order.
pub open spec fn node_text(n: GreenNode) -> Seq<char>
    decreases n, 1int,
{
    forest_text(n.children@)
}

pub open spec fn child_text(c: GreenChild) -> Seq<char>
    decreases c, 2int,
{
    match c {
        GreenChild::Node(n) => node_text(n),
        GreenChild::Token(t) => t.text@,
    }
}

pub open spec fn forest_text(s: Seq<GreenChild>) -> Seq<char>
    decreases s, 3int,
{
    if s.len() == 0 {
        Seq::empty()
    } else {
        child_text(s[0]) + forest_text(s.drop_first())
    }
}

/// No token of the tree is an `Identifier` spelled like a keyword.
pub open spec fn node_idents_ok(n: GreenNode) -> bool
    decreases n, 1int,
{
    forest_idents_ok(n.children@)
}

pub open spec fn child_idents_ok(c: GreenChild) -> bool
    decreases c, 2int,
{
    match c {
        GreenChild::Node(n) => node_idents_ok(n),
        GreenChild::Token(t) => t.kind == SyntaxKind::Identifier
            ==> !crate::lexer::is_reserved_spelling(t.text@),
    }
}

pub open spec fn forest_idents_ok(s: Seq<GreenChild>) -> bool
    decreases s, 3int,
{
    if s.len() == 0 {
        true
    } else {
        child_idents_ok(s[0]) && forest_idents_ok(s.drop_first())
    }
}

pub proof fn lemma_forest_text_push(s: Seq<GreenChild>, c: GreenChild)
    ensures
        forest_text(s.push(c)) == forest_text(s) + child_text(c),
    decreases s.len(),
{
    if s.len() == 0 {
        assert(s.push(c).drop_first() =~= Seq::<GreenChild>::empty());
        assert(s.push(c)[0] == c);
        assert(forest_text(Seq::<GreenChild>::empty()) == Seq::<char>::empty());
        assert(child_text(c) + Seq::<char>::empty() =~= child_text(c));
        assert(forest_text(s) + child_text(c) =~= child_text(c));
    } else {
        assert(s.push(c).drop_first() =~= s.drop_first().push(c));
        assert(s.push(c)[0] == s[0]);
        lemma_forest_text_push(s.drop_first(), c);
        assert(child_text(s[0]) + (forest_text(s.drop_first()) + child_text(c)) =~= (child_text(
            s[0],
        ) + forest_text(s.drop_first())) + child_text(c));
    }
}

/// The kind and text of every token leaf, in pre-order.
pub open spec fn node_leaves(n: GreenNode) -> Seq<(SyntaxKind, Seq<char>)>
    decreases n, 1int,
{
    forest_leaves(n.children@)
}

pub open spec fn child_leaves(c: GreenChild) -> Seq<(SyntaxKind, Seq<char>)>
    decreases c, 2int,
{
    match c {
        GreenChild::Node(n) => node_leaves(n),
        GreenChild::Token(t) => seq![(t.kind, t.text@)],
    }
}

pub open spec fn forest_leaves(s: Seq<GreenChild>) -> Seq<(SyntaxKind, Seq<char>)>
    decreases s, 3int,
{
    if s.len() == 0 {
        Seq::empty()
    } else {
        child_leaves(s[0]) + forest_leaves(s.drop_first())
    }
}

pub proof fn lemma_forest_leaves_push(s: Seq<GreenChild>, c: GreenChild)
    ensures
        forest_leaves(s.push(c)) == forest_leaves(s) + child_leaves(c),
    decreases s.len(),
{
    if s.len() == 0 {
        assert(s.push(c).drop_first() =~= Seq::<GreenChild>::empty());
        assert(s.push(c)[0] == c);
        assert(forest_leaves(Seq::<GreenChild>::empty()) == Seq::<(SyntaxKind, Seq<char>)>::empty());
        assert(child_leaves(c) + Seq::<(SyntaxKind, Seq<char>)>::empty() =~= child_leaves(c));
        assert(forest_leaves(s) + child_leaves(c) =~= child_leaves(c));
    } else {
        assert(s.push(c).drop_first() =~= s.drop_first().push(c));
        assert(s.push(c)[0] == s[0]);
        lemma_forest_leaves_push(s.drop_first(), c);
        assert(child_leaves(s[0]) + (forest_leaves(s.drop_first()) + child_leaves(c)) =~= (
        child_leaves(s[0]) + forest_leaves(s.drop_first())) + child_leaves(c));
    }
}

proof fn lemma_forest_idents_push(s: Seq<GreenChild>, c: GreenChild)
    requires
        forest_idents_ok(s),
        child_idents_ok(c),
    ensures
        forest_idents_ok(s.push(c)),
    decreases s.len(),
{
    if s.len() == 0 {
        assert(s.push(c).drop_first() =~= Seq::<GreenChild>::empty());
        assert(s.push(c)[0] == c);
        assert(forest_idents_ok(Seq::<GreenChild>::empty()));
    } else {
        assert(s.push(c).drop_first() =~= s.drop_first().push(c));
        assert(s.push(c)[0] == s[0]);
        lemma_forest_idents_push(s.drop_first(), c);
    }
}

/// The byte offset, relative to the node's own start `off`, at which child
/// `i` of `n` begins.
pub open spec fn child_offset(n: GreenNode, off: int, i: int) -> int {
    off + crate::token::byte_len(forest_text(n.children@.take(i)))
}

/// Range coverage: the children of a node lie side by side, the first
/// starting where the node starts and the last ending where the node ends,
/// so a node's range is exactly the union of its children's ranges. This
/// holds of every node of every green tree, at any offset.
pub proof fn lemma_range_coverage(n: GreenNode, off: int)
    ensures
        child_offset(n, off, 0) == off,
        child_offset(n, off, n.children@.len() as int) == off + crate::token::byte_len(
            node_text(n),
        ),
        forall|i: int|
            0 <= i < n.children@.len() ==> #[trigger] child_offset(n, off, i + 1) == child_offset(
                n,
                off,
                i,
            ) + crate::token::byte_len(child_text(n.children@[i])),
{
    assert(n.children@.take(0) =~= Seq::<GreenChild>::empty());
    assert(forest_text(Seq::<GreenChild>::empty()) == Seq::<char>::empty());
    assert(crate::token::byte_len(Seq::<char>::empty()) == 0);
    assert(n.children@.take(n.children@.len() as int) =~= n.children@);
    assert forall|i: int| 0 <= i < n.children@.len() implies #[trigger] child_offset(n, off, i + 1)
        == child_offset(n, off, i) + crate::token::byte_len(child_text(n.children@[i])) by {
        assert(n.children@.take(i + 1) =~= n.children@.take(i).push(n.children@[i]));
        lemma_forest_text_push(n.children@.take(i), n.children@[i]);
        crate::token::lemma_byte_len_concat(
            forest_text(n.children@.take(i)),
            child_text(n.children@[i]),
        );
    }
}

/// One unfinished node of the tree under construction: its kind and the
/// children built so far.
type Level = (SyntaxKind, Vec<GreenChild>);

/// The text already committed to the tree under construction, bottom level
/// first.
pub open spec fn stack_text(s: Seq<Level>) -> Seq<char>
    decreases s.len(),
{
    if s.len() == 0 {
        Seq::empty()
    } else {
        stack_text(s.drop_last()) + forest_text(s.last().1@)
    }
}

/// The token leaves already committed to the tree under construction.
pub open spec fn stack_leaves(s: Seq<Level>) -> Seq<(SyntaxKind, Seq<char>)>
    decreases s.len(),
{
    if s.len() == 0 {
        Seq::empty()
    } else {
        stack_leaves(s.drop_last()) + forest_leaves(s.last().1@)
    }
}

pub open spec fn stack_idents(s: Seq<Level>) -> bool {
    forall|i: int| 0 <= i < s.len() ==> forest_idents_ok((#[trigger] s[i]).1@)
}

/// Builds a green tree bottom-up: tokens and finished nodes are appended to
/// the enclosing unfinished node, and the root collects whatever remains.
pub struct TreeBuilder {
    pub stack: Vec<Level>,
}

impl TreeBuilder {
    /// A builder holding one open node, the future root.
    pub fn new_root() -> (b: TreeBuilder)
        ensures
            b.stack@.len() == 1,
            b.stack@[0].0 == SyntaxKind::Root,
            stack_text(b.stack@) == Seq::<char>::empty(),
            stack_leaves(b.stack@) == Seq::<(SyntaxKind, Seq<char>)>::empty(),
            stack_idents(b.stack@),
    {
        let mut stack: Vec<Level> = Vec::new();
        let children: Vec<GreenChild> = Vec::new();
        stack.push((SyntaxKind::Root, children));
        proof {
            assert(stack@.drop_last() =~= Seq::<Level>::empty());
            assert(stack_text(Seq::<Level>::empty()) == Seq::<char>::empty());
            assert(forest_text(stack@.last().1@) == Seq::<char>::empty());
            assert(Seq::<char>::empty() + Seq::<char>::empty() =~= Seq::<char>::empty());
            assert(stack_leaves(Seq::<Level>::empty()) == Seq::<(SyntaxKind, Seq<char>)>::empty());
            assert(forest_leaves(stack@.last().1@) == Seq::<(SyntaxKind, Seq<char>)>::empty());
            assert(Seq::<(SyntaxKind, Seq<char>)>::empty() + Seq::<
                (SyntaxKind, Seq<char>),
            >::empty() =~= Seq::<(SyntaxKind, Seq<char>)>::empty());
        }
        TreeBuilder { stack }
    }

    /// Opens a new node of the given kind.
    pub fn start_node(&mut self, kind: SyntaxKind)
        requires
            old(self).stack@.len() >= 1,
        ensures
            final(self).stack@.len() == old(self).stack@.len() + 1,
            forall|i: int|
                0 <= i < old(self).stack@.len() ==> #[trigger] final(self).stack@[i] == old(
                    self,
                ).stack@[i],
            final(self).stack@.last().0 == kind,
            final(self).stack@.last().1@ == Seq::<GreenChild>::empty(),
            stack_text(final(self).stack@) == stack_text(old(self).stack@),
            stack_leaves(final(self).stack@) == stack_leaves(old(self).stack@),
            stack_idents(old(self).stack@) ==> stack_idents(final(self).stack@),
    {
        let children: Vec<GreenChild> = Vec::new();
        self.stack.push((kind, children));
        proof {
            let s = self.stack@;
            assert(s.drop_last() =~= old(self).stack@);
            assert(forest_text(s.last().1@) == Seq::<char>::empty());
            assert(stack_text(old(self).stack@) + Seq::<char>::empty() =~= stack_text(
                old(self).stack@,
            ));
            assert(forest_leaves(s.last().1@) == Seq::<(SyntaxKind, Seq<char>)>::empty());
            assert(stack_leaves(old(self).stack@) + Seq::<(SyntaxKind, Seq<char>)>::empty()
                =~= stack_leaves(old(self).stack@));
            if stack_idents(old(self).stack@) {
                assert forall|i: int| 0 <= i < s.len() implies forest_idents_ok(
                    (#[trigger] s[i]).1@,
                ) by {
                    if i < s.len() - 1 {
                        assert(s[i] == old(self).stack@[i]);
                    }
                }
            }
        }
    }

    /// Appends a token to the innermost open node.
    pub fn token(&mut self, kind: SyntaxKind, text: String)
        requires
            old(self).stack@.len() >= 1,
            kind == SyntaxKind::Identifier ==> !crate::lexer::is_reserved_spelling(text@),
        ensures
            final(self).stack@.len() == old(self).stack@.len(),
            forall|i: int|
                0 <= i < old(self).stack@.len() - 1 ==> #[trigger] final(self).stack@[i] == old(
                    self,
                ).stack@[i],
            final(self).stack@.last().0 == old(self).stack@.last().0,
            stack_text(final(self).stack@) == stack_text(old(self).stack@) + text@,
            stack_leaves(final(self).stack@) == stack_leaves(old(self).stack@).push((kind, text@)),
            stack_idents(old(self).stack@) ==> stack_idents(final(self).stack@),
    {
        let ghost old_stack = self.stack@;
        let mut lev = self.stack.pop().unwrap();
        let ghost old_children = lev.1@;
        let child = GreenChild::Token(GreenToken { kind, text });
        let ghost gchild = child;
        lev.1.push(child);
        self.stack.push(lev);
        proof {
            let s = self.stack@;
            assert(s.drop_last() =~= old_stack.drop_last());
            assert(s.last().1@ == old_children.push(gchild));
            lemma_forest_text_push(old_children, gchild);
            assert(stack_text(old_stack.drop_last()) + (forest_text(old_children) + child_text(
                gchild,
            )) =~= (stack_text(old_stack.drop_last()) + forest_text(old_children)) + child_text(
                gchild,
            ));
            lemma_forest_leaves_push(old_children, gchild);
            assert(child_leaves(gchild) =~= seq![(gchild->Token_0.kind, gchild->Token_0.text@)]);
            assert(stack_leaves(old_stack.drop_last()) + (forest_leaves(old_children)
                + child_leaves(gchild)) =~= (stack_leaves(old_stack.drop_last()) + forest_leaves(
                old_children,
            )).push((gchild->Token_0.kind, gchild->Token_0.text@)));
            if stack_idents(old_stack) {
                assert(forest_idents_ok(old_children));
                assert(child_idents_ok(gchild));
                lemma_forest_idents_push(old_children, gchild);
                assert forall|i: int| 0 <= i < s.len() implies forest_idents_ok(
                    (#[trigger] s[i]).1@,
                ) by {
                    if i < s.len() - 1 {
                        assert(s[i] == old_stack[i]);
                    }
                }
            }
        }
    }

    /// Closes the innermost open node and attaches it to its parent.
    pub fn finish_node(&mut self)
        requires
            old(self).stack@.len() >= 2,
        ensures
            final(self).stack@.len() == old(self).stack@.len() - 1,
            forall|i: int|
                0 <= i < old(self).stack@.len() - 2 ==> #[trigger] final(self).stack@[i] == old(
                    self,
                ).stack@[i],
            final(self).stack@.last().0 == old(self).stack@[old(self).stack@.len() - 2].0,
            stack_text(final(self).stack@) == stack_text(old(self).stack@),
            stack_leaves(final(self).stack@) == stack_leaves(old(self).stack@),
            stack_idents(old(self).stack@) ==> stack_idents(final(self).stack@),
    {
        let ghost old_stack = self.stack@;
        let top = self.stack.pop().unwrap();
        let node = GreenNode { kind: top.0, children: top.1 };
        let ghost gnode = node;
        let mut lev = self.stack.pop().unwrap();
        let ghost old_children = lev.1@;
        let child = GreenChild::Node(node);
        let ghost gchild = child;
        lev.1.push(child);
        self.stack.push(lev);
        proof {
            let s = self.stack@;
            assert(old_stack.drop_last().drop_last() =~= s.drop_last());
            assert(s.last().1@ == old_children.push(gchild));
            assert(old_stack.drop_last().last().1@ == old_children);
            assert(child_text(gchild) == forest_text(old_stack.last().1@));
            lemma_forest_text_push(old_children, gchild);
            // regroup: ((rest + parent) + top) == (rest + (parent + top))
            assert(stack_text(old_stack) == stack_text(old_stack.drop_last()) + forest_text(
                old_stack.last().1@,
            ));
            assert(stack_text(old_stack.drop_last()) == stack_text(
                old_stack.drop_last().drop_last(),
            ) + forest_text(old_stack.drop_last().last().1@));
            assert(stack_text(old_stack) == (stack_text(s.drop_last()) + forest_text(
                old_children,
            )) + forest_text(old_stack.last().1@));
            lemma_forest_leaves_push(old_children, gchild);
            assert(child_leaves(gchild) == forest_leaves(old_stack.last().1@));
            assert(stack_leaves(old_stack) == stack_leaves(old_stack.drop_last()) + forest_leaves(
                old_stack.last().1@,
            ));
            assert(stack_leaves(old_stack.drop_last()) == stack_leaves(
                old_stack.drop_last().drop_last(),
            ) + forest_leaves(old_stack.drop_last().last().1@));
            assert(stack_leaves(old_stack) == (stack_leaves(s.drop_last()) + forest_leaves(
                old_children,
            )) + forest_leaves(old_stack.last().1@));
            assert((stack_leaves(s.drop_last()) + forest_leaves(old_children)) + child_leaves(
                gchild,
            ) =~= stack_leaves(s.drop_last()) + (forest_leaves(old_children) + child_leaves(
                gchild,
            )));
            assert((stack_text(s.drop_last()) + forest_text(old_children)) + child_text(gchild)
                =~= stack_text(s.drop_last()) + (forest_text(old_children) + child_text(gchild)));
            if stack_idents(old_stack) {
                assert(forest_idents_ok(old_stack.last().1@));
                assert(node_idents_ok(gnode));
                assert(forest_idents_ok(old_children));
                lemma_forest_idents_push(old_children, gchild);
                assert forall|i: int| 0 <= i < s.len() implies forest_idents_ok(
                    (#[trigger] s[i]).1@,
                ) by {
                    if i < s.len() - 1 {
                        assert(s[i] == old_stack[i]);
                    }
                }
            }
        }
    }

    /// How many nodes are open.
    pub fn depth(&self) -> (d: usize)
        ensures
            d == self.stack@.len(),
    {
        self.stack.len()
    }

    /// Closes the root and hands the finished tree out.
    pub fn finish(self) -> (root: GreenNode)
        requires
            self.stack@.len() == 1,
        ensures
            root.kind == self.stack@[0].0,
            node_text(root) == stack_text(self.stack@),
            node_leaves(root) == stack_leaves(self.stack@),
            stack_idents(self.stack@) ==> node_idents_ok(root),
    {
        let mut stack = self.stack;
        let ghost s = stack@;
        let top = stack.pop().unwrap();
        let root = GreenNode { kind: top.0, children: top.1 };
        proof {
            assert(s.drop_last() =~= Seq::<Level>::empty());
            assert(stack_text(Seq::<Level>::empty()) == Seq::<char>::empty());
            assert(Seq::<char>::empty() + forest_text(s.last().1@) =~= forest_text(s.last().1@));
            assert(stack_leaves(Seq::<Level>::empty()) == Seq::<(SyntaxKind, Seq<char>)>::empty());
            assert(Seq::<(SyntaxKind, Seq<char>)>::empty() + forest_leaves(s.last().1@)
                =~= forest_leaves(s.last().1@));
        }
        root
    }
}

pub proof fn lemma_forest_text_concat(a: Seq<GreenChild>, b: Seq<GreenChild>)
    ensures
        forest_text(a + b) == forest_text(a) + forest_text(b),
    decreases a.len(),
{
    if a.len() == 0 {
        assert(a + b =~= b);
        assert(forest_text(a) + forest_text(b) =~= forest_text(b));
    } else {
        assert((a + b).drop_first() =~= a.drop_first() + b);
        assert((a + b)[0] == a[0]);
        lemma_forest_text_concat(a.drop_first(), b);
        assert(child_text(a[0]) + (forest_text(a.drop_first()) + forest_text(b)) =~= (child_text(
            a[0],
        ) + forest_text(a.drop_first())) + forest_text(b));
    }
}

/// The number of bytes the node's text occupies in UTF-8.
pub fn node_byte_len(n: &GreenNode) -> (w: usize)
    requires
        crate::token::byte_len(node_text(*n)) <= usize::MAX,
    ensures
        w as int == crate::token::byte_len(node_text(*n)),
    decreases *n, 1int,
{
    let mut w: usize = 0;
    let mut i: usize = 0;
    proof {
        assert(n.children@.take(0) =~= Seq::<GreenChild>::empty());
        assert(forest_text(Seq::<GreenChild>::empty()) == Seq::<char>::empty());
        assert(crate::token::byte_len(Seq::<char>::empty()) == 0);
    }
    while i < n.children.len()
        invariant
            i <= n.children@.len(),
            w as int == crate::token::byte_len(forest_text(n.children@.take(i as int))),
            crate::token::byte_len(node_text(*n)) <= usize::MAX,
        decreases n.children@.len() - i,
    {
        proof {
            assert(n.children@.take(i as int + 1) =~= n.children@.take(i as int).push(
                n.children@[i as int],
            ));
            lemma_forest_text_push(n.children@.take(i as int), n.children@[i as int]);
            crate::token::lemma_byte_len_concat(
                forest_text(n.children@.take(i as int)),
                child_text(n.children@[i as int]),
            );
            assert(n.children@ =~= n.children@.take(i as int + 1) + n.children@.skip(i as int + 1));
            lemma_forest_text_concat(
                n.children@.take(i as int + 1),
                n.children@.skip(i as int + 1),
            );
            crate::token::lemma_byte_len_concat(
                forest_text(n.children@.take(i as int + 1)),
                forest_text(n.children@.skip(i as int + 1)),
            );
            crate::token::lemma_byte_len_bounds(forest_text(n.children@.skip(i as int + 1)));
            crate::token::lemma_byte_len_bounds(forest_text(n.children@.take(i as int)));
            crate::token::lemma_byte_len_bounds(child_text(n.children@[i as int]));
        }
        let cw = child_byte_len(&n.children[i]);
        w = w + cw;
        i = i + 1;
    }
    proof {
        assert(n.children@.take(n.children@.len() as int) =~= n.children@);
    }
    w
}

/// The number of bytes the child's text occupies in UTF-8.
pub fn child_byte_len(c: &GreenChild) -> (w: usize)
    requires
        crate::token::byte_len(child_text(*c)) <= usize::MAX,
    ensures
        w as int == crate::token::byte_len(child_text(*c)),
    decreases *c, 2int,
{
    match c {
        GreenChild::Node(n) => node_byte_len(n),
        GreenChild::Token(t) => {
            proof {
                crate::token::lemma_byte_len_is_utf8_len(t.text@);
            }
            t.text.as_str().as_bytes().len()
        },
    }
}

} // verus!
