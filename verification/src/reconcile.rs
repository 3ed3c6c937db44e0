use vstd::prelude::*;
use crate::builder::{Builder, lemma_append_leaf, lemma_close_to, lemma_open, lemma_open_dense};
use crate::grammar::{AstNode, GrammarToken};
use crate::lexer::{Token, tokens_text};
use crate::syntax_kind::SyntaxKind;
use crate::tree::{Element, LeafView, leaves_text, lemma_leaves_text_concat};

verus! {

/// How far the merge has come: the tree under construction, and the index of
/// the first grammar node that is not opened yet.
pub struct Progress {
    pub builder: Builder,
    pub next_node: int,
}

/// Whether a grammar token starts or ends inside a token of the classifier.
pub open spec fn touches(token: Token, fine: GrammarToken) -> bool {
    token.holds(fine.span.start as int) || token.holds(fine.span.end as int)
}

/// Whether the grammar token with the index `next` is there and gives its
/// kind to the leaf of `token`.
pub open spec fn takes(fine: Seq<GrammarToken>, next: int, token: Token) -> bool {
    0 <= next < fine.len() && touches(token, fine[next])
}

/// The kind of the leaf of `token` while the grammar token with the index
/// `next` is the pending one: the kind that the grammar gives where the
/// pending token touches `token`, the class of the classifier otherwise.
pub open spec fn resolved_kind(fine: Seq<GrammarToken>, next: int, token: Token) -> SyntaxKind {
    if takes(fine, next, token) {
        fine[next].kind
    } else {
        token.kind.kind()
    }
}

/// The index of the pending grammar token once the first `k` tokens have
/// their leaves: every leaf that took its kind from the grammar used one up.
pub open spec fn pending_after(fine: Seq<GrammarToken>, tokens: Seq<Token>, k: int) -> int
    decreases k,
{
    if k <= 0 {
        0
    } else {
        let before = pending_after(fine, tokens, k - 1);
        if takes(fine, before, tokens[k - 1]) {
            before + 1
        } else {
            before
        }
    }
}

/// The leaf of the token with the index `k`.
pub open spec fn leaf_of(fine: Seq<GrammarToken>, tokens: Seq<Token>, k: int) -> LeafView {
    LeafView {
        kind: resolved_kind(fine, pending_after(fine, tokens, k), tokens[k]),
        text: tokens[k].text,
    }
}

/// The leaves of the first `k` tokens.
pub open spec fn leaves_of(fine: Seq<GrammarToken>, tokens: Seq<Token>, k: int) -> Seq<LeafView>
    decreases k,
{
    if k <= 0 {
        Seq::empty()
    } else {
        leaves_of(fine, tokens, k - 1).push(leaf_of(fine, tokens, k - 1))
    }
}

/// Opens the pending grammar nodes that start inside `token`, one after the
/// other, each at its own depth.
pub open spec fn open_pending(p: Progress, nodes: Seq<AstNode>, token: Token) -> Progress
    decreases nodes.len() - p.next_node,
{
    if 0 <= p.next_node < nodes.len() && token.holds(nodes[p.next_node].position as int) {
        open_pending(
            Progress {
                builder: p.builder.open(nodes[p.next_node].kind, nodes[p.next_node].depth),
                next_node: p.next_node + 1,
            },
            nodes,
            token,
        )
    } else {
        p
    }
}

/// One token: the grammar nodes that start inside it are opened, then its
/// leaf is added with the kind `kind`.
pub open spec fn step(p: Progress, nodes: Seq<AstNode>, kind: SyntaxKind, token: Token) -> Progress {
    let opened = open_pending(p, nodes, token);
    Progress {
        builder: opened.builder.append_leaf(kind, token.text),
        next_node: opened.next_node,
    }
}

/// The state after the first `k` tokens.
pub open spec fn merged(
    init: Progress,
    nodes: Seq<AstNode>,
    fine: Seq<GrammarToken>,
    tokens: Seq<Token>,
    k: int,
) -> Progress
    decreases k,
{
    if k <= 0 {
        init
    } else {
        step(
            merged(init, nodes, fine, tokens, k - 1),
            nodes,
            leaf_of(fine, tokens, k - 1).kind,
            tokens[k - 1],
        )
    }
}

/// The state before the first token: where the grammar gave any node, the
/// first one is open as the root of the statement.
pub open spec fn started(b: Builder, nodes: Seq<AstNode>) -> Progress {
    if nodes.len() > 0 {
        Progress { builder: b.open(nodes[0].kind, nodes[0].depth), next_node: 1 }
    } else {
        Progress { builder: b, next_node: 0 }
    }
}

/// The tree that the three streams give together: the tokens of the
/// classifier drive, the grammar nodes open around them, the grammar tokens
/// lend their kinds, and at the end every node down to depth 1 is closed.
pub open spec fn reconciled(
    b: Builder,
    nodes: Seq<AstNode>,
    fine: Seq<GrammarToken>,
    tokens: Seq<Token>,
) -> Builder {
    merged(started(b, nodes), nodes, fine, tokens, tokens.len() as int).builder.close_to(1)
}

/// Whether the grammar nodes come as the nodes of a tree do when it is walked
/// from the root: the first at depth 1, each later one at most one level
/// below the one before it.
pub open spec fn nested(nodes: Seq<AstNode>) -> bool {
    &&& nodes.len() > 0 ==> nodes[0].depth == 1
    &&& forall|i: int| 0 <= i < nodes.len() ==> (#[trigger] nodes[i]).depth >= 1
    &&& forall|i: int|
        0 < i < nodes.len() ==> (#[trigger] nodes[i]).depth <= nodes[i - 1].depth + 1
}

/// Whether the open nodes have the depths 1, 2, 3 and so on, down to the
/// grammar node that was opened last.
pub open spec fn follows(p: Progress, nodes: Seq<AstNode>) -> bool {
    &&& 0 <= p.next_node <= nodes.len()
    &&& p.builder.dense()
    &&& p.builder.stack.len() == if p.next_node == 0 {
        0
    } else {
        nodes[p.next_node - 1].depth as int
    }
}

/// Opening the pending nodes moves no leaf and drops no diagnostic; it adds
/// one node for each grammar node that it passes.
proof fn lemma_open_pending(p: Progress, nodes: Seq<AstNode>, token: Token)
    requires
        0 <= p.next_node <= nodes.len(),
    ensures
        p.next_node <= open_pending(p, nodes, token).next_node <= nodes.len(),
        open_pending(p, nodes, token).builder.leaves() == p.builder.leaves(),
        open_pending(p, nodes, token).builder.diagnostics == p.builder.diagnostics,
        open_pending(p, nodes, token).builder.nodes() == p.builder.nodes() + open_pending(
            p,
            nodes,
            token,
        ).next_node - p.next_node,
        p.builder.wf() ==> open_pending(p, nodes, token).builder.wf(),
        nested(nodes) && follows(p, nodes) ==> follows(open_pending(p, nodes, token), nodes),
    decreases nodes.len() - p.next_node,
{
    if p.next_node < nodes.len() && token.holds(nodes[p.next_node].position as int) {
        let node = nodes[p.next_node];
        let next = Progress {
            builder: p.builder.open(node.kind, node.depth),
            next_node: p.next_node + 1,
        };
        lemma_open(p.builder, node.kind, node.depth);
        if nested(nodes) && follows(p, nodes) {
            lemma_open_dense(p.builder, node.kind, node.depth);
        }
        lemma_open_pending(next, nodes, token);
    }
}

/// One token adds its leaf behind the leaves that are there.
proof fn lemma_step(p: Progress, nodes: Seq<AstNode>, kind: SyntaxKind, token: Token)
    requires
        0 <= p.next_node <= nodes.len(),
    ensures
        p.next_node <= step(p, nodes, kind, token).next_node <= nodes.len(),
        step(p, nodes, kind, token).builder.leaves() == p.builder.leaves().push(
            LeafView { kind, text: token.text },
        ),
        step(p, nodes, kind, token).builder.diagnostics == p.builder.diagnostics,
        step(p, nodes, kind, token).builder.nodes() == p.builder.nodes() + step(
            p,
            nodes,
            kind,
            token,
        ).next_node - p.next_node,
        p.builder.wf() ==> step(p, nodes, kind, token).builder.wf(),
        nested(nodes) && follows(p, nodes) ==> follows(step(p, nodes, kind, token), nodes),
{
    lemma_open_pending(p, nodes, token);
    let opened = open_pending(p, nodes, token);
    lemma_append_leaf(opened.builder, kind, token.text);
}

/// The text of the leaves of the first `k` tokens is the text of those tokens.
proof fn lemma_leaves_of_text(fine: Seq<GrammarToken>, tokens: Seq<Token>, k: int)
    requires
        0 <= k <= tokens.len(),
    ensures
        leaves_of(fine, tokens, k).len() == k,
        leaves_text(leaves_of(fine, tokens, k)) == tokens_text(tokens.subrange(0, k)),
    decreases k,
{
    if k > 0 {
        lemma_leaves_of_text(fine, tokens, k - 1);
        let leaves = leaves_of(fine, tokens, k);
        assert(leaves.drop_last() =~= leaves_of(fine, tokens, k - 1));
        assert(tokens.subrange(0, k).drop_last() =~= tokens.subrange(0, k - 1));
    }
}

/// After the first `k` tokens the tree holds, behind the leaves that it had,
/// one leaf for each of these tokens, in their order: each with the text of
/// its token and with the kind that the pending grammar token lends it or,
/// where that one does not touch it, the class of the classifier. No
/// diagnostic is added, one node is added for each grammar node that was
/// passed, and the depths of the open nodes still grow inwards.
pub proof fn lemma_merged(
    init: Progress,
    nodes: Seq<AstNode>,
    fine: Seq<GrammarToken>,
    tokens: Seq<Token>,
    k: int,
)
    requires
        0 <= init.next_node <= nodes.len(),
        0 <= k <= tokens.len(),
    ensures
        init.next_node <= merged(init, nodes, fine, tokens, k).next_node <= nodes.len(),
        merged(init, nodes, fine, tokens, k).builder.leaves() == init.builder.leaves() + leaves_of(
            fine,
            tokens,
            k,
        ),
        merged(init, nodes, fine, tokens, k).builder.text() == init.builder.text() + tokens_text(
            tokens.subrange(0, k),
        ),
        merged(init, nodes, fine, tokens, k).builder.diagnostics == init.builder.diagnostics,
        merged(init, nodes, fine, tokens, k).builder.nodes() == init.builder.nodes() + merged(
            init,
            nodes,
            fine,
            tokens,
            k,
        ).next_node - init.next_node,
        init.builder.wf() ==> merged(init, nodes, fine, tokens, k).builder.wf(),
        nested(nodes) && follows(init, nodes) ==> follows(
            merged(init, nodes, fine, tokens, k),
            nodes,
        ),
    decreases k,
{
    lemma_leaves_of_text(fine, tokens, k);
    lemma_leaves_text_concat(init.builder.leaves(), leaves_of(fine, tokens, k));
    if k > 0 {
        lemma_merged(init, nodes, fine, tokens, k - 1);
        let before = merged(init, nodes, fine, tokens, k - 1);
        lemma_step(before, nodes, leaf_of(fine, tokens, k - 1).kind, tokens[k - 1]);
        assert((init.builder.leaves() + leaves_of(fine, tokens, k - 1)).push(
            leaf_of(fine, tokens, k - 1),
        ) =~= init.builder.leaves() + leaves_of(fine, tokens, k));
    } else {
        assert(init.builder.leaves() + leaves_of(fine, tokens, k) =~= init.builder.leaves());
    }
}

/// The leaf of each token stands at the index of its token.
pub proof fn lemma_leaves_of_index(fine: Seq<GrammarToken>, tokens: Seq<Token>, n: int, k: int)
    requires
        0 <= k < n,
    ensures
        leaves_of(fine, tokens, n).len() == n,
        leaves_of(fine, tokens, n)[k] == leaf_of(fine, tokens, k),
    decreases n,
{
    lemma_leaves_of_len(fine, tokens, n - 1);
    if k < n - 1 {
        lemma_leaves_of_index(fine, tokens, n - 1, k);
    }
}

proof fn lemma_leaves_of_len(fine: Seq<GrammarToken>, tokens: Seq<Token>, n: int)
    requires
        0 <= n,
    ensures
        leaves_of(fine, tokens, n).len() == n,
    decreases n,
{
    if n > 0 {
        lemma_leaves_of_len(fine, tokens, n - 1);
    }
}

/// Merging adds one leaf for each token, in the order of the tokens and with
/// the text of the tokens, behind the leaves that are there: the text of the
/// tree grows by the text of the tokens, whatever the grammar delivered. It
/// adds no diagnostic, opens at most one node for each grammar node, and
/// leaves no node of depth 1 or more open.
pub proof fn lemma_reconciled(
    b: Builder,
    nodes: Seq<AstNode>,
    fine: Seq<GrammarToken>,
    tokens: Seq<Token>,
)
    ensures
        reconciled(b, nodes, fine, tokens).leaves() == b.leaves() + leaves_of(
            fine,
            tokens,
            tokens.len() as int,
        ),
        reconciled(b, nodes, fine, tokens).text() == b.text() + tokens_text(tokens),
        reconciled(b, nodes, fine, tokens).diagnostics == b.diagnostics,
        b.nodes() <= reconciled(b, nodes, fine, tokens).nodes() <= b.nodes() + nodes.len(),
        reconciled(b, nodes, fine, tokens).depth() < 1,
        b.wf() ==> reconciled(b, nodes, fine, tokens).wf(),
{
    let init = started(b, nodes);
    if nodes.len() > 0 {
        lemma_open(b, nodes[0].kind, nodes[0].depth);
    }
    lemma_merged(init, nodes, fine, tokens, tokens.len() as int);
    lemma_close_to(merged(init, nodes, fine, tokens, tokens.len() as int).builder, 1);
    assert(tokens.subrange(0, tokens.len() as int) =~= tokens);
}

/// A row of leaves as elements of a tree.
pub open spec fn flat(leaves: Seq<LeafView>) -> Seq<Element> {
    Seq::new(leaves.len(), |i: int| Element::Leaf { kind: leaves[i].kind, text: leaves[i].text })
}

/// Without grammar nodes, and with no node open, the leaves of the tokens go
/// to the root one after the other, and no node is opened.
proof fn lemma_merged_without_nodes(
    b: Builder,
    fine: Seq<GrammarToken>,
    tokens: Seq<Token>,
    k: int,
)
    requires
        b.stack.len() == 0,
        0 <= k <= tokens.len(),
    ensures
        merged(Progress { builder: b, next_node: 0 }, Seq::empty(), fine, tokens, k) == (Progress {
            builder: Builder {
                stack: Seq::empty(),
                roots: b.roots + flat(leaves_of(fine, tokens, k)),
                diagnostics: b.diagnostics,
            },
            next_node: 0,
        }),
    decreases k,
{
    let init = Progress { builder: b, next_node: 0 };
    let none = Seq::<AstNode>::empty();
    if k > 0 {
        lemma_merged_without_nodes(b, fine, tokens, k - 1);
        let before = merged(init, none, fine, tokens, k - 1);
        let leaf = leaf_of(fine, tokens, k - 1);
        assert(open_pending(before, none, tokens[k - 1]) == before);
        assert((b.roots + flat(leaves_of(fine, tokens, k - 1))).push(
            Element::Leaf { kind: leaf.kind, text: leaf.text },
        ) =~= b.roots + flat(leaves_of(fine, tokens, k)));
    } else {
        assert(b.roots + flat(leaves_of(fine, tokens, k)) =~= b.roots);
        assert(b.stack =~= Seq::empty());
    }
}

/// Where the grammar delivered no node and no node is open, the tree has no
/// structure: every token is a leaf at the root, and no node is added.
pub proof fn lemma_reconciled_without_nodes(b: Builder, fine: Seq<GrammarToken>, tokens: Seq<Token>)
    requires
        b.stack.len() == 0,
    ensures
        reconciled(b, Seq::empty(), fine, tokens) == (Builder {
            stack: Seq::empty(),
            roots: b.roots + flat(leaves_of(fine, tokens, tokens.len() as int)),
            diagnostics: b.diagnostics,
        }),
{
    lemma_merged_without_nodes(b, fine, tokens, tokens.len() as int);
}

/// Where the grammar nodes come as the nodes of a tree do, and no node was
/// open before, the open nodes have the depths 1, 2, 3 and so on after every
/// token: each node was opened directly inside the node one level above it.
pub proof fn lemma_merged_dense(
    b: Builder,
    nodes: Seq<AstNode>,
    fine: Seq<GrammarToken>,
    tokens: Seq<Token>,
    k: int,
)
    requires
        b.stack.len() == 0,
        nested(nodes),
        0 <= k <= tokens.len(),
    ensures
        follows(merged(started(b, nodes), nodes, fine, tokens, k), nodes),
        merged(started(b, nodes), nodes, fine, tokens, k).builder.dense(),
{
    if nodes.len() > 0 {
        lemma_open_dense(b, nodes[0].kind, nodes[0].depth);
    }
    lemma_merged(started(b, nodes), nodes, fine, tokens, k);
}

} // verus!
