use vstd::prelude::*;
use vstd::string::*;
use crate::builder::{Builder, Diagnostic, Frame, lemma_append_leaf, lemma_close_to, lemma_open};
use crate::span::SourceSpan;
use crate::syntax_kind::SyntaxKind;
use crate::tree::{Element, SyntaxElement, SyntaxTree, forest_view, lemma_forest_view_push};

verus! {

/// A problem that was met while a statement was parsed. It does not stop the
/// tree from being built.
#[derive(Clone, Debug, PartialEq, Eq)]
pub struct ParseDiagnostic {
    pub message: String,
    pub span: SourceSpan,
}

impl View for ParseDiagnostic {
    type V = Diagnostic;

    open spec fn view(&self) -> Diagnostic {
        Diagnostic { message: self.message@, span: self.span }
    }
}

/// What a row of diagnostics is.
pub open spec fn diagnostics_view(diagnostics: Seq<ParseDiagnostic>) -> Seq<Diagnostic> {
    Seq::new(diagnostics.len(), |i: int| diagnostics[i]@)
}

/// What has been parsed: the tree and the diagnostics.
#[derive(Debug, PartialEq, Eq)]
pub struct Parse {
    pub tree: SyntaxTree,
    pub diagnostics: Vec<ParseDiagnostic>,
}

struct OpenNode {
    depth: u32,
    kind: SyntaxKind,
    children: Vec<SyntaxElement>,
}

impl OpenNode {
    spec fn frame(self) -> Frame {
        Frame { depth: self.depth, kind: self.kind, children: forest_view(self.children@) }
    }
}

spec fn frames(stack: Seq<OpenNode>) -> Seq<Frame> {
    Seq::new(stack.len(), |i: int| stack[i].frame())
}

/// Builds a syntax tree from the outside in: nodes are opened at a depth,
/// leaves are added to the innermost open node, and nodes are closed from the
/// innermost outwards.
pub struct Parser {
    stack: Vec<OpenNode>,
    roots: Vec<SyntaxElement>,
    diagnostics: Vec<ParseDiagnostic>,
}

impl View for Parser {
    type V = Builder;

    closed spec fn view(&self) -> Builder {
        Builder {
            stack: frames(self.stack@),
            roots: forest_view(self.roots@),
            diagnostics: diagnostics_view(self.diagnostics@),
        }
    }
}

impl Default for Parser {
    fn default() -> (parser: Parser)
        ensures
            parser@ == Builder::empty(),
    {
        Parser::new()
    }
}

impl Parser {
    /// A parser that has built nothing yet.
    pub fn new() -> (parser: Parser)
        ensures
            parser@ == Builder::empty(),
    {
        let parser = Parser { stack: Vec::new(), roots: Vec::new(), diagnostics: Vec::new() };
        proof {
            assert(parser@.stack =~= Seq::<Frame>::empty());
            assert(parser@.roots =~= Seq::<Element>::empty());
            assert(parser@.diagnostics =~= Seq::<Diagnostic>::empty());
        }
        parser
    }

    /// The depth of the innermost open node; 0 where no node is open.
    pub fn depth(&self) -> (depth: u32)
        ensures
            depth == self@.depth(),
    {
        let n = self.stack.len();
        if n == 0 {
            0
        } else {
            self.stack[n - 1].depth
        }
    }

    fn close_top(&mut self)
        requires
            old(self).stack.len() > 0,
        ensures
            final(self)@ == old(self)@.close_top(),
            final(self).stack.len() == old(self).stack.len() - 1,
    {
        let ghost before = self.stack@;
        let ghost roots = self.roots@;
        let top = self.stack.pop().unwrap();
        let ghost top_frame = top.frame();
        let node = SyntaxElement::Node { kind: top.kind, children: top.children };
        assert(node@ == (Element::Node { kind: top_frame.kind, children: top_frame.children }));
        assert(frames(before).last() == top_frame);
        assert(frames(before).drop_last() =~= frames(self.stack@));
        match self.stack.pop() {
            Some(parent) => {
                let ghost parent_frame = parent.frame();
                let ghost below = self.stack@;
                let mut parent = parent;
                proof {
                    lemma_forest_view_push(parent.children@, node);
                    assert(frames(before).drop_last().last() == parent_frame);
                    assert(frames(before).drop_last().drop_last() =~= frames(below));
                }
                parent.children.push(node);
                self.stack.push(parent);
                proof {
                    assert(frames(self.stack@) =~= frames(below).push(parent.frame()));
                }
            },
            None => {
                proof {
                    lemma_forest_view_push(roots, node);
                    assert(frames(self.stack@) =~= Seq::<Frame>::empty());
                }
                self.roots.push(node);
            },
        }
    }

    /// Closes open nodes, the innermost first, until the innermost open node
    /// is less deep than `depth`.
    pub fn close_to(&mut self, depth: u32)
        ensures
            final(self)@ == old(self)@.close_to(depth),
            old(self)@.wf() ==> final(self)@.wf(),
    {
        proof {
            lemma_close_to(self@, depth);
        }
        while self.stack.len() > 0 && self.stack[self.stack.len() - 1].depth >= depth
            invariant
                self@.close_to(depth) == old(self)@.close_to(depth),
            decreases self.stack.len(),
        {
            proof {
                assert(frames(self.stack@).last() == self.stack[self.stack.len() - 1].frame());
            }
            self.close_top();
        }
        proof {
            if self.stack.len() > 0 {
                assert(frames(self.stack@).last() == self.stack[self.stack.len() - 1].frame());
            }
        }
    }

    /// Opens a node of the kind `kind` at the depth `depth`, after closing the
    /// open nodes that are at least as deep.
    pub fn open(&mut self, kind: SyntaxKind, depth: u32)
        ensures
            final(self)@ == old(self)@.open(kind, depth),
            old(self)@.wf() ==> final(self)@.wf(),
    {
        proof {
            lemma_open(self@, kind, depth);
        }
        self.close_to(depth);
        let ghost closed = self.stack@;
        let frame = OpenNode { depth, kind, children: Vec::new() };
        proof {
            assert(forest_view(frame.children@) =~= Seq::<Element>::empty());
        }
        self.stack.push(frame);
        proof {
            assert(frames(self.stack@) =~= frames(closed).push(frame.frame()));
        }
    }

    /// Adds a leaf of the kind `kind` with the text `text` to the innermost
    /// open node, or at the root where no node is open.
    pub fn append_leaf(&mut self, kind: SyntaxKind, text: &str)
        ensures
            final(self)@ == old(self)@.append_leaf(kind, text@),
            old(self)@.wf() ==> final(self)@.wf(),
    {
        proof {
            lemma_append_leaf(self@, kind, text@);
        }
        let leaf = SyntaxElement::Leaf { kind, text: text.to_owned() };
        assert(leaf@ == (Element::Leaf { kind, text: text@ }));
        let ghost before = self.stack@;
        let ghost roots = self.roots@;
        match self.stack.pop() {
            Some(top) => {
                let ghost below = self.stack@;
                let ghost top_frame = top.frame();
                let mut top = top;
                proof {
                    lemma_forest_view_push(top.children@, leaf);
                    assert(frames(before).last() == top_frame);
                    assert(frames(before).drop_last() =~= frames(below));
                }
                top.children.push(leaf);
                self.stack.push(top);
                proof {
                    assert(frames(self.stack@) =~= frames(below).push(top.frame()));
                }
            },
            None => {
                proof {
                    lemma_forest_view_push(roots, leaf);
                    assert(frames(self.stack@) =~= Seq::<Frame>::empty());
                    assert(frames(before) =~= Seq::<Frame>::empty());
                }
                self.roots.push(leaf);
            },
        }
    }

    /// Records a diagnostic. The tree under construction is not touched.
    pub fn record_error(&mut self, message: String, span: SourceSpan)
        ensures
            final(self)@ == old(self)@.record_error(message@, span),
    {
        let ghost before = self.diagnostics@;
        let diagnostic = ParseDiagnostic { message, span };
        self.diagnostics.push(diagnostic);
        proof {
            assert(diagnostics_view(self.diagnostics@) =~= diagnostics_view(before).push(
                diagnostic@,
            ));
        }
    }

    /// Closes every node that is still open and hands out the tree and the
    /// diagnostics.
    pub fn finish(self) -> (parse: Parse)
        ensures
            parse.tree@ == self@.finish(),
            diagnostics_view(parse.diagnostics@) == self@.diagnostics,
    {
        let mut parser = self;
        parser.close_to(0);
        proof {
            lemma_close_to(self@, 0);
        }
        Parse { tree: SyntaxTree { roots: parser.roots }, diagnostics: parser.diagnostics }
    }
}

} // verus!
