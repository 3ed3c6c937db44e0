use vstd::prelude::*;
use crate::span::SourceSpan;
use crate::syntax_kind::SyntaxKind;

verus! {

/// A token as the grammar sees it: its kind and the bytes that it covers.
/// The grammar leaves out white space and comments, and its tokens need not
/// end where those of the classifier end.
#[derive(Clone, Copy, Debug, PartialEq, Eq)]
pub struct GrammarToken {
    pub kind: SyntaxKind,
    pub span: SourceSpan,
}

/// A node of the grammar's tree: its kind, the byte offset at which its first
/// token starts, and its depth in the tree, where the root has depth 1.
#[derive(Clone, Copy, Debug, PartialEq, Eq)]
pub struct AstNode {
    pub kind: SyntaxKind,
    pub position: usize,
    pub depth: u32,
}

/// Where in a row of nodes that is ordered by position a node with the
/// position `position` goes: behind every node that starts no later.
pub open spec fn insertion_point(nodes: Seq<AstNode>, position: usize) -> int
    decreases nodes.len(),
{
    if nodes.len() > 0 && nodes.last().position > position {
        insertion_point(nodes.drop_last(), position)
    } else {
        nodes.len() as int
    }
}

/// The nodes in the order of their positions; nodes with the same position
/// stay in the order in which they came.
pub open spec fn sorted_by_position(nodes: Seq<AstNode>) -> Seq<AstNode>
    decreases nodes.len(),
{
    if nodes.len() == 0 {
        Seq::empty()
    } else {
        let before = sorted_by_position(nodes.drop_last());
        before.insert(insertion_point(before, nodes.last().position), nodes.last())
    }
}

/// Whether no node stands before a node that starts earlier.
pub open spec fn ordered(nodes: Seq<AstNode>) -> bool {
    forall|i: int, j: int|
        0 <= i < j < nodes.len() ==> (#[trigger] nodes[i]).position <= (#[trigger] nodes[j]).position
}

/// The nodes of a row that start at `position`, in their order.
pub open spec fn starting_at(nodes: Seq<AstNode>, position: usize) -> Seq<AstNode>
    decreases nodes.len(),
{
    if nodes.len() == 0 {
        Seq::empty()
    } else if nodes.last().position == position {
        starting_at(nodes.drop_last(), position).push(nodes.last())
    } else {
        starting_at(nodes.drop_last(), position)
    }
}

/// In a row that is ordered by position the insertion point parts the nodes
/// that start no later than `position` from those that start later.
pub proof fn lemma_insertion_point(nodes: Seq<AstNode>, position: usize)
    requires
        ordered(nodes),
    ensures
        0 <= insertion_point(nodes, position) <= nodes.len(),
        forall|i: int|
            0 <= i < nodes.len() ==> (i < insertion_point(nodes, position) <==> (
            #[trigger] nodes[i]).position <= position),
    decreases nodes.len(),
{
    if nodes.len() > 0 && nodes.last().position > position {
        let front = nodes.drop_last();
        assert forall|i: int, j: int| 0 <= i < j < front.len() implies (#[trigger] front[i]).position
            <= (#[trigger] front[j]).position by {
            assert(front[i] == nodes[i] && front[j] == nodes[j]);
        }
        lemma_insertion_point(front, position);
        assert forall|i: int| 0 <= i < nodes.len() implies (i < insertion_point(nodes, position)
            <==> (#[trigger] nodes[i]).position <= position) by {
            if i < front.len() {
                assert(front[i] == nodes[i]);
            }
        }
    } else {
        assert forall|i: int| 0 <= i < nodes.len() implies (#[trigger] nodes[i]).position
            <= position by {
            if i < nodes.len() - 1 {
                assert(nodes[i].position <= nodes[nodes.len() - 1].position);
            }
        }
    }
}

/// Sorting puts the nodes in the order of their positions and neither adds
/// nor drops one.
pub proof fn lemma_sorted_by_position(nodes: Seq<AstNode>)
    ensures
        ordered(sorted_by_position(nodes)),
        sorted_by_position(nodes).len() == nodes.len(),
        sorted_by_position(nodes).to_multiset() == nodes.to_multiset(),
    decreases nodes.len(),
{
    broadcast use vstd::seq_lib::group_to_multiset_ensures;

    if nodes.len() > 0 {
        let last = nodes.last();
        let before = sorted_by_position(nodes.drop_last());
        lemma_sorted_by_position(nodes.drop_last());
        lemma_insertion_point(before, last.position);
        let at = insertion_point(before, last.position);
        let after = before.insert(at, last);
        assert forall|i: int, j: int| 0 <= i < j < after.len() implies (#[trigger] after[i]).position
            <= (#[trigger] after[j]).position by {
            if j < at {
                assert(after[i] == before[i] && after[j] == before[j]);
            } else if j == at {
                assert(after[i] == before[i]);
            } else if i < at {
                assert(after[i] == before[i] && after[j] == before[j - 1]);
            } else if i == at {
                assert(after[j] == before[j - 1]);
            } else {
                assert(after[i] == before[i - 1] && after[j] == before[j - 1]);
            }
        }
        assert(after.remove(at) =~= before);
        assert(after[at] == last);
        assert(after.contains(last));
        vstd::seq_lib::to_multiset_remove(after, at);
        after.to_multiset_ensures();
        assert(after.to_multiset() =~= before.to_multiset().insert(last));
        assert(nodes.drop_last().push(last) =~= nodes);
        nodes.drop_last().to_multiset_ensures();
    }
}

/// Sorting keeps the nodes that start at one position in the order in which
/// they came.
pub proof fn lemma_sorted_is_stable(nodes: Seq<AstNode>, position: usize)
    ensures
        starting_at(sorted_by_position(nodes), position) == starting_at(nodes, position),
    decreases nodes.len(),
{
    if nodes.len() > 0 {
        let last = nodes.last();
        let before = sorted_by_position(nodes.drop_last());
        lemma_sorted_is_stable(nodes.drop_last(), position);
        lemma_sorted_by_position(nodes.drop_last());
        lemma_insertion_point(before, last.position);
        lemma_starting_at_insert(before, insertion_point(before, last.position), last, position);
    }
}

/// A node that is put in where every node behind it starts later goes last
/// among the nodes of its position, and no other position sees it.
proof fn lemma_starting_at_insert(nodes: Seq<AstNode>, at: int, node: AstNode, position: usize)
    requires
        0 <= at <= nodes.len(),
        forall|i: int| at <= i < nodes.len() ==> (#[trigger] nodes[i]).position > node.position,
    ensures
        starting_at(nodes.insert(at, node), position) == if node.position == position {
            starting_at(nodes, position).push(node)
        } else {
            starting_at(nodes, position)
        },
    decreases nodes.len() - at,
{
    if at == nodes.len() {
        assert(nodes.insert(at, node) =~= nodes.push(node));
        assert(nodes.push(node).drop_last() =~= nodes);
    } else {
        let grown = nodes.insert(at, node);
        assert(grown.last() == nodes.last());
        assert(grown.drop_last() =~= nodes.drop_last().insert(at, node));
        assert forall|i: int| at <= i < nodes.drop_last().len() implies (
        #[trigger] nodes.drop_last()[i]).position > node.position by {
            assert(nodes.drop_last()[i] == nodes[i]);
        }
        lemma_starting_at_insert(nodes.drop_last(), at, node, position);
        assert(nodes[nodes.len() - 1].position > node.position);
    }
}

/// Puts the nodes in the order of their positions; nodes with the same
/// position stay in the order in which they came.
pub fn sort_by_position(nodes: &Vec<AstNode>) -> (sorted: Vec<AstNode>)
    ensures
        sorted@ == sorted_by_position(nodes@),
        ordered(sorted@),
        sorted@.to_multiset() == nodes@.to_multiset(),
{
    let mut sorted: Vec<AstNode> = Vec::new();
    let mut done: usize = 0;
    while done < nodes.len()
        invariant
            done <= nodes.len(),
            sorted@ == sorted_by_position(nodes@.subrange(0, done as int)),
        decreases nodes.len() - done,
    {
        let node = nodes[done];
        let mut at: usize = sorted.len();
        proof {
            assert(sorted@.subrange(0, sorted.len() as int) =~= sorted@);
        }
        while at > 0 && sorted[at - 1].position > node.position
            invariant
                at <= sorted.len(),
                insertion_point(sorted@, node.position) == insertion_point(
                    sorted@.subrange(0, at as int),
                    node.position,
                ),
            decreases at,
        {
            proof {
                assert(sorted@.subrange(0, at as int).drop_last() =~= sorted@.subrange(0, at - 1));
            }
            at -= 1;
        }
        proof {
            assert(nodes@.subrange(0, done + 1).drop_last() =~= nodes@.subrange(0, done as int));
        }
        sorted.insert(at, node);
        done += 1;
    }
    proof {
        assert(nodes@.subrange(0, nodes.len() as int) =~= nodes@);
        lemma_sorted_by_position(nodes@);
    }
    sorted
}

} // verus!
