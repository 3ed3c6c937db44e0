use vstd::prelude::*;

verus! {

/// The label of a leaf or of a node of a syntax tree.
///
/// The first group of variants are the coarse kinds that the character
/// classifier can assign on its own. A kind that only the grammar can assign
/// is carried by the code under which the grammar knows it: `Token` for a token
/// kind, `Node` for the kind of a grammar node.
#[derive(Clone, Copy, Debug, PartialEq, Eq, Hash)]
pub enum SyntaxKind {
    Ascii37,
    Ascii40,
    Ascii41,
    Ascii42,
    Ascii43,
    Ascii44,
    Ascii45,
    Ascii46,
    Ascii47,
    Ascii58,
    Ascii59,
    Ascii60,
    Ascii61,
    Ascii62,
    Ascii63,
    Ascii91,
    Ascii92,
    Ascii93,
    Ascii94,
    Sconst,
    Word,
    Whitespace,
    Newline,
    Tab,
    Comment,
    Token(i32),
    Node(i32),
}

impl SyntaxKind {
    /// Whether the character classifier can assign this kind by itself.
    pub open spec fn is_coarse(self) -> bool {
        !(self is Token) && !(self is Node)
    }
}

} // verus!
