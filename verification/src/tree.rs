use vstd::prelude::*;
use vstd::string::*;
use crate::syntax_kind::SyntaxKind;

verus! {

/// What a syntax element is: a leaf with its kind and its text, or a node with
/// its kind and its children in order.
pub enum Element {
    Leaf { kind: SyntaxKind, text: Seq<char> },
    Node { kind: SyntaxKind, children: Seq<Element> },
}

/// A leaf as it stands in the text: its kind and its characters.
pub struct LeafView {
    pub kind: SyntaxKind,
    pub text: Seq<char>,
}

/// The text of the leaves below a row of elements, in order.
pub open spec fn forest_text(forest: Seq<Element>) -> Seq<char>
    decreases forest, 0int,
{
    if forest.len() == 0 {
        Seq::empty()
    } else {
        forest_text(forest.drop_last()) + element_text(forest.last())
    }
}

/// The text of the leaves of one element, in order.
pub open spec fn element_text(element: Element) -> Seq<char>
    decreases element, 1int,
{
    match element {
        Element::Leaf { text, .. } => text,
        Element::Node { children, .. } => forest_text(children),
    }
}

/// The leaves below a row of elements, in order.
pub open spec fn forest_leaves(forest: Seq<Element>) -> Seq<LeafView>
    decreases forest, 0int,
{
    if forest.len() == 0 {
        Seq::empty()
    } else {
        forest_leaves(forest.drop_last()) + element_leaves(forest.last())
    }
}

/// The leaves of one element, in order.
pub open spec fn element_leaves(element: Element) -> Seq<LeafView>
    decreases element, 1int,
{
    match element {
        Element::Leaf { kind, text } => seq![LeafView { kind, text }],
        Element::Node { children, .. } => forest_leaves(children),
    }
}

/// The number of nodes in a row of elements, at any depth.
pub open spec fn forest_nodes(forest: Seq<Element>) -> nat
    decreases forest, 0int,
{
    if forest.len() == 0 {
        0
    } else {
        forest_nodes(forest.drop_last()) + element_nodes(forest.last())
    }
}

/// The number of nodes in one element, itself included.
pub open spec fn element_nodes(element: Element) -> nat
    decreases element, 1int,
{
    match element {
        Element::Leaf { .. } => 0,
        Element::Node { children, .. } => 1 + forest_nodes(children),
    }
}

/// The characters of a row of leaves, one leaf after the other.
pub open spec fn leaves_text(leaves: Seq<LeafView>) -> Seq<char>
    decreases leaves.len(),
{
    if leaves.len() == 0 {
        Seq::empty()
    } else {
        leaves_text(leaves.drop_last()) + leaves.last().text
    }
}

/// The text of two rows of leaves, one behind the other.
pub proof fn lemma_leaves_text_concat(a: Seq<LeafView>, b: Seq<LeafView>)
    ensures
        leaves_text(a + b) == leaves_text(a) + leaves_text(b),
    decreases b.len(),
{
    if b.len() == 0 {
        assert(a + b =~= a);
        assert(leaves_text(a) + leaves_text(b) =~= leaves_text(a));
    } else {
        assert((a + b).drop_last() =~= a + b.drop_last());
        lemma_leaves_text_concat(a, b.drop_last());
        assert((leaves_text(a) + leaves_text(b.drop_last())) + b.last().text =~= leaves_text(a) + (
        leaves_text(b.drop_last()) + b.last().text));
    }
}

/// The text of a row of elements is the text of its leaves.
pub proof fn lemma_forest_text_is_leaves_text(forest: Seq<Element>)
    ensures
        forest_text(forest) == leaves_text(forest_leaves(forest)),
    decreases forest, 0int,
{
    if forest.len() > 0 {
        lemma_forest_text_is_leaves_text(forest.drop_last());
        lemma_element_text_is_leaves_text(forest.last());
        lemma_leaves_text_concat(forest_leaves(forest.drop_last()), element_leaves(forest.last()));
    }
}

/// The text of an element is the text of its leaves.
pub proof fn lemma_element_text_is_leaves_text(element: Element)
    ensures
        element_text(element) == leaves_text(element_leaves(element)),
    decreases element, 1int,
{
    match element {
        Element::Leaf { kind, text } => {
            let one = seq![LeafView { kind, text }];
            assert(one.drop_last() =~= Seq::<LeafView>::empty());
            assert(leaves_text(one) =~= text) by {
                reveal_with_fuel(leaves_text, 2);
            }
        },
        Element::Node { children, .. } => {
            lemma_forest_text_is_leaves_text(children);
        },
    }
}

/// One element of a syntax tree.
#[derive(Debug, PartialEq, Eq)]
pub enum SyntaxElement {
    Leaf { kind: SyntaxKind, text: String },
    Node { kind: SyntaxKind, children: Vec<SyntaxElement> },
}

/// What a row of elements is.
pub open spec fn forest_view(elements: Seq<SyntaxElement>) -> Seq<Element>
    decreases elements, 0int,
{
    if elements.len() == 0 {
        Seq::empty()
    } else {
        forest_view(elements.drop_last()).push(element_view(elements.last()))
    }
}

/// What one element is.
pub open spec fn element_view(element: SyntaxElement) -> Element
    decreases element, 1int,
{
    match element {
        SyntaxElement::Leaf { kind, text } => Element::Leaf { kind, text: text@ },
        SyntaxElement::Node { kind, children } => Element::Node {
            kind,
            children: forest_view(children@),
        },
    }
}

impl View for SyntaxElement {
    type V = Element;

    open spec fn view(&self) -> Element {
        element_view(*self)
    }
}

/// The view of a row with one more element.
pub proof fn lemma_forest_view_push(elements: Seq<SyntaxElement>, element: SyntaxElement)
    ensures
        forest_view(elements.push(element)) == forest_view(elements).push(element@),
{
    assert(elements.push(element).drop_last() =~= elements);
}

/// A syntax tree: the elements at its root, in the order of the text.
#[derive(Debug, PartialEq, Eq)]
pub struct SyntaxTree {
    pub roots: Vec<SyntaxElement>,
}

impl SyntaxElement {
    /// Adds the text of the leaves of this element, in order, to `out`.
    pub fn write_text(&self, out: &mut String)
        ensures
            final(out)@ == old(out)@ + element_text(self@),
        decreases self,
    {
        match self {
            SyntaxElement::Leaf { text, .. } => {
                out.append(text.as_str());
            },
            SyntaxElement::Node { children, .. } => {
                let mut i: usize = 0;
                proof {
                    assert(children@.subrange(0, 0) =~= Seq::<SyntaxElement>::empty());
                    assert(old(out)@ + Seq::<char>::empty() =~= old(out)@);
                }
                while i < children.len()
                    invariant
                        i <= children.len(),
                        self is Node,
                        self->Node_children == *children,
                        out@ == old(out)@ + forest_text(forest_view(children@.subrange(0, i as int))),
                    decreases children.len() - i,
                {
                    let ghost before = out@;
                    let child = &children[i];
                    proof {
                        vstd::std_specs::vec::axiom_vec_index_decreases(*children, i as int);
                    }
                    child.write_text(out);
                    proof {
                        let done = children@.subrange(0, i as int);
                        assert(children@.subrange(0, i + 1) =~= done.push(*child));
                        lemma_forest_view_push(done, *child);
                        assert(forest_view(done).push(child@).drop_last() =~= forest_view(done));
                        assert(before + element_text(child@) =~= old(out)@ + forest_text(
                            forest_view(children@.subrange(0, i + 1)),
                        ));
                    }
                    i += 1;
                }
                proof {
                    assert(children@.subrange(0, children.len() as int) =~= children@);
                }
            },
        }
    }
}

impl SyntaxTree {
    /// The text of the tree: the text of its leaves, in order.
    pub fn text(&self) -> (text: String)
        ensures
            text@ == forest_text(self@),
    {
        let mut out = String::new();
        let mut i: usize = 0;
        proof {
            assert(self.roots@.subrange(0, 0) =~= Seq::<SyntaxElement>::empty());
        }
        while i < self.roots.len()
            invariant
                i <= self.roots.len(),
                out@ == forest_text(forest_view(self.roots@.subrange(0, i as int))),
            decreases self.roots.len() - i,
        {
            let ghost before = out@;
            let root = &self.roots[i];
            root.write_text(&mut out);
            proof {
                let done = self.roots@.subrange(0, i as int);
                assert(self.roots@.subrange(0, i + 1) =~= done.push(*root));
                lemma_forest_view_push(done, *root);
                assert(forest_view(done).push(root@).drop_last() =~= forest_view(done));
            }
            i += 1;
        }
        proof {
            assert(self.roots@.subrange(0, self.roots.len() as int) =~= self.roots@);
        }
        out
    }
}

impl View for SyntaxTree {
    type V = Seq<Element>;

    open spec fn view(&self) -> Seq<Element> {
        forest_view(self.roots@)
    }
}

} // verus!
