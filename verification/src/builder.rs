use vstd::prelude::*;
use crate::span::SourceSpan;
use crate::syntax_kind::SyntaxKind;
use crate::tree::{
    Element, LeafView, element_leaves, element_nodes, forest_leaves, forest_nodes, leaves_text,
};

verus! {

/// A node that is still open: the depth at which it was opened, its kind, and
/// the children that it has so far.
pub struct Frame {
    pub depth: u32,
    pub kind: SyntaxKind,
    pub children: Seq<Element>,
}

/// A problem that was met while a statement was parsed, with the bytes of the
/// enclosing document that it is about.
pub struct Diagnostic {
    pub message: Seq<char>,
    pub span: SourceSpan,
}

/// The state of a tree under construction: the open nodes from the outermost
/// to the innermost, the elements that are finished at the root, and the
/// diagnostics. The root level is an open node of depth 0 that is never closed.
pub struct Builder {
    pub stack: Seq<Frame>,
    pub roots: Seq<Element>,
    pub diagnostics: Seq<Diagnostic>,
}

/// The leaves that stand in the open nodes, from the outermost one inwards.
pub open spec fn stack_leaves(stack: Seq<Frame>) -> Seq<LeafView>
    decreases stack.len(),
{
    if stack.len() == 0 {
        Seq::empty()
    } else {
        stack_leaves(stack.drop_last()) + forest_leaves(stack.last().children)
    }
}

/// The number of nodes in and among the open nodes, themselves included.
pub open spec fn stack_nodes(stack: Seq<Frame>) -> nat
    decreases stack.len(),
{
    if stack.len() == 0 {
        0
    } else {
        stack_nodes(stack.drop_last()) + 1 + forest_nodes(stack.last().children)
    }
}

impl Builder {
    /// The state in which nothing has been built.
    pub open spec fn empty() -> Builder {
        Builder { stack: Seq::empty(), roots: Seq::empty(), diagnostics: Seq::empty() }
    }

    /// Whether every open node is deeper than the open nodes around it.
    pub open spec fn wf(self) -> bool {
        forall|i: int, j: int|
            0 <= i < j < self.stack.len() ==> (#[trigger] self.stack[i]).depth < (
            #[trigger] self.stack[j]).depth
    }

    /// Whether the open nodes have the depths 1, 2, 3 and so on.
    pub open spec fn dense(self) -> bool {
        forall|i: int| 0 <= i < self.stack.len() ==> (#[trigger] self.stack[i]).depth == i + 1
    }

    /// The depth of the innermost open node; 0 where only the root level is open.
    pub open spec fn depth(self) -> int {
        if self.stack.len() == 0 {
            0
        } else {
            self.stack.last().depth as int
        }
    }

    /// Closes the innermost open node: it becomes the last child of the node
    /// around it, or the last element at the root where there is none.
    pub open spec fn close_top(self) -> Builder
        recommends
            self.stack.len() > 0,
    {
        let top = self.stack.last();
        let node = Element::Node { kind: top.kind, children: top.children };
        let below = self.stack.drop_last();
        if below.len() == 0 {
            Builder { stack: below, roots: self.roots.push(node), diagnostics: self.diagnostics }
        } else {
            let parent = below.last();
            Builder {
                stack: below.drop_last().push(
                    Frame {
                        depth: parent.depth,
                        kind: parent.kind,
                        children: parent.children.push(node),
                    },
                ),
                roots: self.roots,
                diagnostics: self.diagnostics,
            }
        }
    }

    /// Closes open nodes, the innermost first, until the innermost open node
    /// is less deep than `depth`.
    pub open spec fn close_to(self, depth: u32) -> Builder
        decreases self.stack.len(),
    {
        if self.stack.len() > 0 && self.stack.last().depth >= depth {
            self.close_top().close_to(depth)
        } else {
            self
        }
    }

    /// Opens a node of the kind `kind` at the depth `depth`, after closing the
    /// open nodes that are at least as deep.
    pub open spec fn open(self, kind: SyntaxKind, depth: u32) -> Builder {
        let closed = self.close_to(depth);
        Builder {
            stack: closed.stack.push(Frame { depth, kind, children: Seq::empty() }),
            roots: closed.roots,
            diagnostics: closed.diagnostics,
        }
    }

    /// Adds a leaf behind the last child of the innermost open node, or behind
    /// the last element at the root where no node is open.
    pub open spec fn append_leaf(self, kind: SyntaxKind, text: Seq<char>) -> Builder {
        let leaf = Element::Leaf { kind, text };
        if self.stack.len() == 0 {
            Builder { stack: self.stack, roots: self.roots.push(leaf), diagnostics: self.diagnostics }
        } else {
            let top = self.stack.last();
            Builder {
                stack: self.stack.drop_last().push(
                    Frame { depth: top.depth, kind: top.kind, children: top.children.push(leaf) },
                ),
                roots: self.roots,
                diagnostics: self.diagnostics,
            }
        }
    }

    /// Adds a diagnostic behind those that are there.
    pub open spec fn record_error(self, message: Seq<char>, span: SourceSpan) -> Builder {
        Builder {
            stack: self.stack,
            roots: self.roots,
            diagnostics: self.diagnostics.push(Diagnostic { message, span }),
        }
    }

    /// All the leaves that were added so far, in the order of the text.
    pub open spec fn leaves(self) -> Seq<LeafView> {
        forest_leaves(self.roots) + stack_leaves(self.stack)
    }

    /// All the text that was added so far.
    pub open spec fn text(self) -> Seq<char> {
        leaves_text(self.leaves())
    }

    /// The number of nodes that were opened so far.
    pub open spec fn nodes(self) -> nat {
        forest_nodes(self.roots) + stack_nodes(self.stack)
    }

    /// The trees at the root once every open node is closed.
    pub open spec fn finish(self) -> Seq<Element> {
        self.close_to(0).roots
    }
}

/// Whether `after` holds the first `n` open nodes of `before`, with their
/// depths and kinds, and no others.
pub open spec fn keeps_outer(before: Seq<Frame>, after: Seq<Frame>, n: int) -> bool {
    &&& 0 <= n <= before.len()
    &&& after.len() == n
    &&& forall|i: int|
        0 <= i < n ==> (#[trigger] after[i]).depth == before[i].depth && after[i].kind
            == before[i].kind
}

/// The leaves and the nodes of a stack with one more open node.
proof fn lemma_stack_leaves_push(stack: Seq<Frame>, frame: Frame)
    ensures
        stack_leaves(stack.push(frame)) == stack_leaves(stack) + forest_leaves(frame.children),
        stack_nodes(stack.push(frame)) == stack_nodes(stack) + 1 + forest_nodes(frame.children),
{
    assert(stack.push(frame).drop_last() =~= stack);
}

/// The leaves and the nodes of a row with one more element.
proof fn lemma_forest_push(forest: Seq<Element>, element: Element)
    ensures
        forest_leaves(forest.push(element)) == forest_leaves(forest) + element_leaves(
            element,
        ),
        forest_nodes(forest.push(element)) == forest_nodes(forest) + element_nodes(
            element,
        ),
{
    assert(forest.push(element).drop_last() =~= forest);
}

/// Closing the innermost open node moves no leaf, adds no node and drops no
/// diagnostic; the open nodes around it stay open as they were.
pub proof fn lemma_close_top(b: Builder)
    requires
        b.stack.len() > 0,
    ensures
        b.close_top().leaves() == b.leaves(),
        b.close_top().nodes() == b.nodes(),
        b.close_top().diagnostics == b.diagnostics,
        keeps_outer(b.stack, b.close_top().stack, b.stack.len() - 1),
        b.wf() ==> b.close_top().wf(),
        b.dense() ==> b.close_top().dense(),
{
    let top = b.stack.last();
    let node = Element::Node { kind: top.kind, children: top.children };
    let below = b.stack.drop_last();
    let after = b.close_top();
    lemma_forest_push(b.roots, node);
    assert(stack_leaves(b.stack) == stack_leaves(below) + forest_leaves(top.children));
    assert(stack_nodes(b.stack) == stack_nodes(below) + 1 + forest_nodes(top.children));
    assert(element_leaves(node) == forest_leaves(top.children));
    assert(element_nodes(node) == 1 + forest_nodes(top.children));
    if below.len() == 0 {
        assert(stack_leaves(below) =~= Seq::<LeafView>::empty());
        assert(stack_nodes(below) == 0);
        assert(after.leaves() =~= b.leaves());
    } else {
        let parent = below.last();
        let grown = Frame {
            depth: parent.depth,
            kind: parent.kind,
            children: parent.children.push(node),
        };
        lemma_forest_push(parent.children, node);
        lemma_stack_leaves_push(below.drop_last(), grown);
        assert(after.stack == below.drop_last().push(grown));
        assert(stack_leaves(below) == stack_leaves(below.drop_last()) + forest_leaves(
            parent.children,
        ));
        assert(stack_nodes(below) == stack_nodes(below.drop_last()) + 1 + forest_nodes(
            parent.children,
        ));
        assert(stack_leaves(after.stack) =~= stack_leaves(b.stack));
        assert forall|i: int| 0 <= i < after.stack.len() implies (#[trigger] after.stack[i]).depth
            == b.stack[i].depth && after.stack[i].kind == b.stack[i].kind by {
            if i < below.len() - 1 {
                assert(after.stack[i] == b.stack[i]);
            }
        }
        if b.wf() {
            assert forall|i: int, j: int| 0 <= i < j < after.stack.len() implies (
            #[trigger] after.stack[i]).depth < (#[trigger] after.stack[j]).depth by {
                assert(after.stack[i].depth == b.stack[i].depth);
                assert(after.stack[j].depth == b.stack[j].depth);
            }
        }
    }
}

/// Closing down to a depth moves no leaf, adds no node and drops no
/// diagnostic. The nodes are closed from the innermost outwards: what stays
/// open are the outermost open nodes, unchanged in depth and kind. Where the
/// depths of the open nodes grow inwards, exactly those that are at least as
/// deep as `depth` are closed.
pub proof fn lemma_close_to(b: Builder, depth: u32)
    ensures
        b.close_to(depth).leaves() == b.leaves(),
        b.close_to(depth).nodes() == b.nodes(),
        b.close_to(depth).diagnostics == b.diagnostics,
        keeps_outer(b.stack, b.close_to(depth).stack, b.close_to(depth).stack.len() as int),
        b.close_to(depth).depth() < depth || b.close_to(depth).stack.len() == 0,
        b.wf() ==> b.close_to(depth).wf(),
        b.dense() ==> b.close_to(depth).dense(),
        b.wf() ==> forall|i: int|
            0 <= i < b.stack.len() ==> (i < b.close_to(depth).stack.len() <==> (
            #[trigger] b.stack[i]).depth < depth),
    decreases b.stack.len(),
{
    if b.stack.len() > 0 && b.stack.last().depth >= depth {
        lemma_close_top(b);
        lemma_close_to(b.close_top(), depth);
        let mid = b.close_top();
        let after = b.close_to(depth);
        assert forall|i: int| 0 <= i < after.stack.len() implies (#[trigger] after.stack[i]).depth
            == b.stack[i].depth && after.stack[i].kind == b.stack[i].kind by {
            assert(mid.stack[i].depth == b.stack[i].depth);
        }
        if b.wf() {
            assert forall|i: int| 0 <= i < b.stack.len() implies (i < after.stack.len() <==> (
            #[trigger] b.stack[i]).depth < depth) by {
                if i < mid.stack.len() {
                    assert(mid.stack[i].depth == b.stack[i].depth);
                } else {
                    assert(b.stack[i] == b.stack.last());
                }
            }
        }
    } else {
        if b.wf() {
            assert forall|i: int| 0 <= i < b.stack.len() implies (#[trigger] b.stack[i]).depth
                < depth by {
                if i < b.stack.len() - 1 {
                    assert(b.stack[i].depth < b.stack[b.stack.len() - 1].depth);
                }
            }
        }
    }
}

/// Opening a node moves no leaf and adds one node. The node is opened below
/// the open nodes that are less deep than it; where the depths of the open
/// nodes grow inwards, they still do afterwards.
pub proof fn lemma_open(b: Builder, kind: SyntaxKind, depth: u32)
    ensures
        b.open(kind, depth).leaves() == b.leaves(),
        b.open(kind, depth).nodes() == b.nodes() + 1,
        b.open(kind, depth).diagnostics == b.diagnostics,
        b.open(kind, depth).stack.len() >= 1,
        keeps_outer(b.stack, b.open(kind, depth).stack.drop_last(), b.open(kind, depth).stack.len() - 1),
        b.open(kind, depth).stack.last() == (Frame { depth, kind, children: Seq::empty() }),
        b.wf() ==> b.open(kind, depth).wf(),
        b.wf() ==> forall|i: int|
            0 <= i < b.stack.len() ==> (i < b.open(kind, depth).stack.len() - 1 <==> (
            #[trigger] b.stack[i]).depth < depth),
{
    lemma_close_to(b, depth);
    let closed = b.close_to(depth);
    let frame = Frame { depth, kind, children: Seq::empty() };
    let after = b.open(kind, depth);
    lemma_stack_leaves_push(closed.stack, frame);
    assert(after.stack.drop_last() =~= closed.stack);
    assert(after.leaves() =~= closed.leaves());
    if b.wf() {
        assert forall|i: int, j: int| 0 <= i < j < after.stack.len() implies (
        #[trigger] after.stack[i]).depth < (#[trigger] after.stack[j]).depth by {
            if j < closed.stack.len() {
                assert(closed.stack[i].depth < closed.stack[j].depth);
            } else {
                assert(closed.stack[i].depth == b.stack[i].depth);
            }
        }
    }
}

/// A node that is opened one level below the innermost open node, or at the
/// level of an open node, has the node one level above it around it: the
/// open nodes then have the depths 1, 2, 3 and so on.
pub proof fn lemma_open_dense(b: Builder, kind: SyntaxKind, depth: u32)
    requires
        b.dense(),
        1 <= depth <= b.stack.len() + 1,
    ensures
        b.open(kind, depth).dense(),
        b.open(kind, depth).stack.len() == depth,
{
    lemma_close_to(b, depth);
    lemma_open(b, kind, depth);
    let closed = b.close_to(depth);
    let after = b.open(kind, depth);
    assert(b.wf()) by {
        assert forall|i: int, j: int| 0 <= i < j < b.stack.len() implies (#[trigger] b.stack[i]).depth
            < (#[trigger] b.stack[j]).depth by {}
    }
    if depth >= 2 {
        assert(b.stack[depth - 2].depth < depth);
    }
    if closed.stack.len() > 0 {
        assert(closed.stack[closed.stack.len() - 1].depth == closed.stack.len());
    }
    assert(closed.stack.len() == depth - 1);
    assert forall|i: int| 0 <= i < after.stack.len() implies (#[trigger] after.stack[i]).depth == i
        + 1 by {
        if i < closed.stack.len() {
            assert(after.stack[i] == closed.stack[i]);
        }
    }
}

/// A leaf is added behind all the leaves that are there; nothing else changes.
pub proof fn lemma_append_leaf(b: Builder, kind: SyntaxKind, text: Seq<char>)
    ensures
        b.append_leaf(kind, text).leaves() == b.leaves().push(LeafView { kind, text }),
        b.append_leaf(kind, text).text() == b.text() + text,
        b.append_leaf(kind, text).nodes() == b.nodes(),
        b.append_leaf(kind, text).diagnostics == b.diagnostics,
        keeps_outer(b.stack, b.append_leaf(kind, text).stack, b.stack.len() as int),
        b.wf() ==> b.append_leaf(kind, text).wf(),
        b.dense() ==> b.append_leaf(kind, text).dense(),
{
    let leaf = Element::Leaf { kind, text };
    let after = b.append_leaf(kind, text);
    assert(b.leaves().push(LeafView { kind, text }).drop_last() =~= b.leaves());
    if b.stack.len() == 0 {
        lemma_forest_push(b.roots, leaf);
        assert(after.leaves() =~= b.leaves().push(LeafView { kind, text }));
    } else {
        let top = b.stack.last();
        let grown = Frame { depth: top.depth, kind: top.kind, children: top.children.push(leaf) };
        lemma_forest_push(top.children, leaf);
        lemma_stack_leaves_push(b.stack.drop_last(), grown);
        assert(after.leaves() =~= b.leaves().push(LeafView { kind, text }));
        assert forall|i: int| 0 <= i < after.stack.len() implies (#[trigger] after.stack[i]).depth
            == b.stack[i].depth && after.stack[i].kind == b.stack[i].kind by {
            if i < b.stack.len() - 1 {
                assert(after.stack[i] == b.stack[i]);
            }
        }
        if b.wf() {
            assert forall|i: int, j: int| 0 <= i < j < after.stack.len() implies (
            #[trigger] after.stack[i]).depth < (#[trigger] after.stack[j]).depth by {
                assert(after.stack[i].depth == b.stack[i].depth);
                assert(after.stack[j].depth == b.stack[j].depth);
            }
        }
    }
}

/// Once every open node is closed, the trees at the root hold all the leaves
/// and all the nodes.
pub proof fn lemma_finish(b: Builder)
    ensures
        b.close_to(0).stack.len() == 0,
        forest_leaves(b.finish()) == b.leaves(),
        forest_nodes(b.finish()) == b.nodes(),
{
    lemma_close_to(b, 0);
    let closed = b.close_to(0);
    assert(closed.leaves() =~= forest_leaves(closed.roots));
}

} // verus!
