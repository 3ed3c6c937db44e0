use vstd::prelude::*;
use crate::builder::{Builder, Diagnostic, lemma_finish};
use crate::grammar::{AstNode, GrammarToken, sort_by_position, sorted_by_position};
use crate::lexer::{
    GenericToken, UnsupportedInput, lemma_tokens_cover, lex, scan, token_views, tokens_of,
    tokens_text,
};
use crate::parser::{Parse, Parser, diagnostics_view};
use crate::reconcile::{
    Progress, flat, leaf_of, leaves_of, lemma_leaves_of_index, lemma_reconciled,
    lemma_reconciled_without_nodes, merged, open_pending, pending_after, reconciled,
    resolved_kind, started, takes,
};
use crate::span::SourceSpan;
use crate::syntax_kind::SyntaxKind;
use crate::text::{byte_len, byte_length, byte_offset};
use crate::tree::{forest_leaves, forest_text, lemma_forest_text_is_leaves_text};

verus! {

/// The coarse classes into which the classifier sorts the characters of a
/// statement. The classifier knows no grammar: every word is a `Word`, and
/// what the word means is left to the grammar.
#[derive(Clone, Copy, Debug, PartialEq, Eq, Hash)]
pub enum StatementToken {
    Ascii37,
    Ascii40,
    Ascii41,
    Ascii42,
    Ascii43,
    Ascii44,
    Ascii45,
    Ascii46,
    Ascii47,
    Ascii58,
    Ascii59,
    Ascii60,
    Ascii61,
    Ascii62,
    Ascii63,
    Ascii91,
    Ascii92,
    Ascii93,
    Ascii94,
    Sconst,
    Word,
    Whitespace,
    Newline,
    Tab,
    Comment,
}

impl StatementToken {
    /// The syntax kind that stands for this class.
    pub open spec fn kind(self) -> SyntaxKind {
        match self {
            StatementToken::Ascii37 => SyntaxKind::Ascii37,
            StatementToken::Ascii40 => SyntaxKind::Ascii40,
            StatementToken::Ascii41 => SyntaxKind::Ascii41,
            StatementToken::Ascii42 => SyntaxKind::Ascii42,
            StatementToken::Ascii43 => SyntaxKind::Ascii43,
            StatementToken::Ascii44 => SyntaxKind::Ascii44,
            StatementToken::Ascii45 => SyntaxKind::Ascii45,
            StatementToken::Ascii46 => SyntaxKind::Ascii46,
            StatementToken::Ascii47 => SyntaxKind::Ascii47,
            StatementToken::Ascii58 => SyntaxKind::Ascii58,
            StatementToken::Ascii59 => SyntaxKind::Ascii59,
            StatementToken::Ascii60 => SyntaxKind::Ascii60,
            StatementToken::Ascii61 => SyntaxKind::Ascii61,
            StatementToken::Ascii62 => SyntaxKind::Ascii62,
            StatementToken::Ascii63 => SyntaxKind::Ascii63,
            StatementToken::Ascii91 => SyntaxKind::Ascii91,
            StatementToken::Ascii92 => SyntaxKind::Ascii92,
            StatementToken::Ascii93 => SyntaxKind::Ascii93,
            StatementToken::Ascii94 => SyntaxKind::Ascii94,
            StatementToken::Sconst => SyntaxKind::Sconst,
            StatementToken::Word => SyntaxKind::Word,
            StatementToken::Whitespace => SyntaxKind::Whitespace,
            StatementToken::Newline => SyntaxKind::Newline,
            StatementToken::Tab => SyntaxKind::Tab,
            StatementToken::Comment => SyntaxKind::Comment,
        }
    }

    /// Creates a `SyntaxKind` from a `StatementToken`.
    pub fn syntax_kind(&self) -> (kind: SyntaxKind)
        ensures
            kind == self.kind(),
            kind.is_coarse(),
    {
        match self {
            StatementToken::Ascii37 => SyntaxKind::Ascii37,
            StatementToken::Ascii40 => SyntaxKind::Ascii40,
            StatementToken::Ascii41 => SyntaxKind::Ascii41,
            StatementToken::Ascii42 => SyntaxKind::Ascii42,
            StatementToken::Ascii43 => SyntaxKind::Ascii43,
            StatementToken::Ascii44 => SyntaxKind::Ascii44,
            StatementToken::Ascii45 => SyntaxKind::Ascii45,
            StatementToken::Ascii46 => SyntaxKind::Ascii46,
            StatementToken::Ascii47 => SyntaxKind::Ascii47,
            StatementToken::Ascii58 => SyntaxKind::Ascii58,
            StatementToken::Ascii59 => SyntaxKind::Ascii59,
            StatementToken::Ascii60 => SyntaxKind::Ascii60,
            StatementToken::Ascii61 => SyntaxKind::Ascii61,
            StatementToken::Ascii62 => SyntaxKind::Ascii62,
            StatementToken::Ascii63 => SyntaxKind::Ascii63,
            StatementToken::Ascii91 => SyntaxKind::Ascii91,
            StatementToken::Ascii92 => SyntaxKind::Ascii92,
            StatementToken::Ascii93 => SyntaxKind::Ascii93,
            StatementToken::Ascii94 => SyntaxKind::Ascii94,
            StatementToken::Sconst => SyntaxKind::Sconst,
            StatementToken::Word => SyntaxKind::Word,
            StatementToken::Whitespace => SyntaxKind::Whitespace,
            StatementToken::Newline => SyntaxKind::Newline,
            StatementToken::Tab => SyntaxKind::Tab,
            StatementToken::Comment => SyntaxKind::Comment,
        }
    }
}

/// The bytes of the enclosing document that a statement with the text `text`
/// takes when it starts at the byte offset `offset`.
pub open spec fn statement_span(offset: int, text: Seq<char>) -> SourceSpan {
    SourceSpan { start: offset as usize, end: (offset + byte_len(text)) as usize }
}

/// What the grammar delivered: nothing where it failed.
pub open spec fn delivered<T>(outcome: Result<Vec<T>, String>) -> Seq<T> {
    match outcome {
        Ok(items) => items@,
        Err(_) => Seq::empty(),
    }
}

/// The state with a diagnostic for the failure of the grammar, if it failed.
pub open spec fn noted<T>(b: Builder, outcome: Result<Vec<T>, String>, span: SourceSpan) -> Builder {
    match outcome {
        Ok(_) => b,
        Err(message) => b.record_error(message@, span),
    }
}

/// The state after a statement is parsed: a failure of the grammar's scan is
/// noted, then one of its parse, each over the whole statement; the grammar
/// nodes are put in the order of their positions; and the three streams are
/// merged into the tree.
pub open spec fn parsed_statement(
    b: Builder,
    text: Seq<char>,
    offset: int,
    scanned: Result<Vec<GrammarToken>, String>,
    parsed: Result<Vec<AstNode>, String>,
) -> Builder {
    let span = statement_span(offset, text);
    reconciled(
        noted(noted(b, scanned, span), parsed, span),
        sorted_by_position(delivered(parsed)),
        delivered(scanned),
        tokens_of(text),
    )
}

/// The text of a statement is kept: whatever the grammar delivered, and
/// whether it failed or not, parsing a statement that the classifier can sort
/// adds exactly the text of the statement to the text of the tree, and the
/// finished tree reads as what was there before followed by the statement.
pub proof fn lemma_statement_text(
    b: Builder,
    text: Seq<char>,
    offset: int,
    scanned: Result<Vec<GrammarToken>, String>,
    parsed: Result<Vec<AstNode>, String>,
)
    requires
        scan(text) is Ok,
    ensures
        parsed_statement(b, text, offset, scanned, parsed).text() == b.text() + text,
        forest_text(parsed_statement(b, text, offset, scanned, parsed).finish()) == b.text() + text,
        b == Builder::empty() ==> forest_text(
            parsed_statement(b, text, offset, scanned, parsed).finish(),
        ) == text,
{
    let span = statement_span(offset, text);
    let before = noted(noted(b, scanned, span), parsed, span);
    let after = parsed_statement(b, text, offset, scanned, parsed);
    lemma_reconciled(before, sorted_by_position(delivered(parsed)), delivered(scanned), tokens_of(text));
    lemma_tokens_cover(text);
    lemma_finish(after);
    lemma_forest_text_is_leaves_text(after.finish());
    if b == Builder::empty() {
        assert(b.leaves() =~= Seq::empty());
        assert(b.text() + text =~= text);
    }
}

/// The leaves of a statement are its tokens: parsing adds one leaf for each
/// token of the classifier, in the order of the text and with the text of the
/// token. The leaf of a token has the kind of the pending grammar token where
/// that one starts or ends inside the token, and the class that the
/// classifier gave the token otherwise.
pub proof fn lemma_statement_leaves(
    b: Builder,
    text: Seq<char>,
    offset: int,
    scanned: Result<Vec<GrammarToken>, String>,
    parsed: Result<Vec<AstNode>, String>,
    k: int,
)
    requires
        scan(text) is Ok,
        0 <= k < tokens_of(text).len(),
    ensures
        parsed_statement(b, text, offset, scanned, parsed).leaves().len() == b.leaves().len()
            + tokens_of(text).len(),
        parsed_statement(b, text, offset, scanned, parsed).leaves()[b.leaves().len() + k]
            == leaf_of(delivered(scanned), tokens_of(text), k),
        leaf_of(delivered(scanned), tokens_of(text), k).text == tokens_of(text)[k].text,
        takes(
            delivered(scanned),
            pending_after(delivered(scanned), tokens_of(text), k),
            tokens_of(text)[k],
        ) ==> leaf_of(delivered(scanned), tokens_of(text), k).kind == delivered(
            scanned,
        )[pending_after(delivered(scanned), tokens_of(text), k)].kind,
        !takes(
            delivered(scanned),
            pending_after(delivered(scanned), tokens_of(text), k),
            tokens_of(text)[k],
        ) ==> leaf_of(delivered(scanned), tokens_of(text), k).kind == tokens_of(
            text,
        )[k].kind.kind(),
        scanned is Err ==> leaf_of(delivered(scanned), tokens_of(text), k).kind == tokens_of(
            text,
        )[k].kind.kind(),
{
    let span = statement_span(offset, text);
    let before = noted(noted(b, scanned, span), parsed, span);
    lemma_reconciled(before, sorted_by_position(delivered(parsed)), delivered(scanned), tokens_of(text));
    lemma_leaves_of_index(delivered(scanned), tokens_of(text), tokens_of(text).len() as int, k);
}

/// Where the grammar's parse failed, the tree has no structure: with no node
/// open before, every token of the statement becomes a leaf at the root, no
/// node is open afterwards and none was added, and the last diagnostic holds
/// the message of the failure over the whole statement.
pub proof fn lemma_failed_parse(
    b: Builder,
    text: Seq<char>,
    offset: int,
    scanned: Result<Vec<GrammarToken>, String>,
    parsed: Result<Vec<AstNode>, String>,
)
    requires
        scan(text) is Ok,
        parsed is Err,
        b.stack.len() == 0,
    ensures
        parsed_statement(b, text, offset, scanned, parsed).stack.len() == 0,
        parsed_statement(b, text, offset, scanned, parsed).roots == b.roots + flat(
            leaves_of(delivered(scanned), tokens_of(text), tokens_of(text).len() as int),
        ),
        parsed_statement(b, text, offset, scanned, parsed).nodes() == b.nodes(),
        parsed_statement(b, text, offset, scanned, parsed).text() == b.text() + text,
        parsed_statement(b, text, offset, scanned, parsed).diagnostics.len() == b.diagnostics.len()
            + if scanned is Err {
            2int
        } else {
            1int
        },
        parsed_statement(b, text, offset, scanned, parsed).diagnostics.last() == (
        Diagnostic {
            message: parsed->Err_0@,
            span: statement_span(offset, text),
        }),
{
    let span = statement_span(offset, text);
    let before = noted(noted(b, scanned, span), parsed, span);
    lemma_reconciled(before, Seq::empty(), delivered(scanned), tokens_of(text));
    lemma_reconciled_without_nodes(before, delivered(scanned), tokens_of(text));
    lemma_statement_text(b, text, offset, scanned, parsed);
    assert(sorted_by_position(delivered(parsed)) =~= Seq::empty());
}

/// Parsing is a function of what it is given: the same text at the same
/// offset, with a grammar that delivers the same, gives the same tree and the
/// same diagnostics.
pub proof fn lemma_same_statement_same_tree(
    b: Builder,
    text: Seq<char>,
    offset: int,
    scanned: Result<Vec<GrammarToken>, String>,
    parsed: Result<Vec<AstNode>, String>,
    scanned_again: Result<Vec<GrammarToken>, String>,
    parsed_again: Result<Vec<AstNode>, String>,
)
    requires
        same_outcome(scanned, scanned_again),
        same_outcome(parsed, parsed_again),
    ensures
        parsed_statement(b, text, offset, scanned, parsed) == parsed_statement(
            b,
            text,
            offset,
            scanned_again,
            parsed_again,
        ),
        parsed_statement(b, text, offset, scanned, parsed).finish() == parsed_statement(
            b,
            text,
            offset,
            scanned_again,
            parsed_again,
        ).finish(),
{
}

/// Whether the grammar delivered the same twice: the same items in the same
/// order, or the same message.
pub open spec fn same_outcome<T>(first: Result<Vec<T>, String>, second: Result<Vec<T>, String>) -> bool {
    match (first, second) {
        (Ok(a), Ok(b)) => a@ == b@,
        (Err(a), Err(b)) => a@ == b@,
        _ => false,
    }
}

/// The kind of the leaf of `token` while the grammar token with the index
/// `next` is the pending one, and the index of the grammar token that is
/// pending afterwards.
///
/// Where the pending grammar token starts or ends inside `token`, the leaf
/// has the kind that the grammar gives and the grammar token is used up;
/// otherwise the leaf has the class of the classifier.
pub fn resolve_kind(token: &GenericToken, fine: &Vec<GrammarToken>, next: usize) -> (resolved: (
    SyntaxKind,
    usize,
))
    ensures
        resolved.0 == resolved_kind(fine@, next as int, token@),
        resolved.1 == if takes(fine@, next as int, token@) {
            next + 1
        } else {
            next as int
        },
{
    if next < fine.len() {
        let pending = fine[next];
        if token.span.contains(pending.span.start) || token.span.contains(pending.span.end) {
            return (pending.kind, next + 1);
        }
    }
    (token.kind.syntax_kind(), next)
}

impl Parser {
    /// Opens the pending grammar nodes that start inside `token`, from the
    /// one with the index `next` on, and returns the index of the first node
    /// that stays pending.
    pub fn open_pending(&mut self, nodes: &Vec<AstNode>, next: usize, token: &GenericToken) -> (after:
        usize)
        requires
            next <= nodes.len(),
        ensures
            (Progress { builder: final(self)@, next_node: after as int }) == open_pending(
                Progress { builder: old(self)@, next_node: next as int },
                nodes@,
                token@,
            ),
            next <= after <= nodes.len(),
    {
        let mut at: usize = next;
        while at < nodes.len() && token.span.contains(nodes[at].position)
            invariant
                next <= at <= nodes.len(),
                open_pending(Progress { builder: self@, next_node: at as int }, nodes@, token@)
                    == open_pending(
                    Progress { builder: old(self)@, next_node: next as int },
                    nodes@,
                    token@,
                ),
            decreases nodes.len() - at,
        {
            let node = nodes[at];
            self.open(node.kind, node.depth);
            at += 1;
        }
        at
    }

    /// Merges the tokens of the classifier with what the grammar delivered
    /// and builds the tree of the statement.
    ///
    /// Every token becomes one leaf with the text of the token, in the order
    /// of the tokens; so the text of the tree grows by the text of the
    /// tokens, whatever the grammar delivered. No diagnostic is added.
    pub fn reconcile(
        &mut self,
        tokens: &Vec<GenericToken>,
        nodes: &Vec<AstNode>,
        fine: &Vec<GrammarToken>,
    )
        ensures
            final(self)@ == reconciled(old(self)@, nodes@, fine@, token_views(tokens@)),
            final(self)@.leaves() == old(self)@.leaves() + leaves_of(
                fine@,
                token_views(tokens@),
                tokens.len() as int,
            ),
            final(self)@.text() == old(self)@.text() + tokens_text(token_views(tokens@)),
            final(self)@.diagnostics == old(self)@.diagnostics,
            old(self)@.nodes() <= final(self)@.nodes() <= old(self)@.nodes() + nodes.len(),
            old(self)@.wf() ==> final(self)@.wf(),
    {
        let ghost views = token_views(tokens@);
        let ghost init = started(self@, nodes@);
        let mut next_node: usize = 0;
        if nodes.len() > 0 {
            let root = nodes[0];
            self.open(root.kind, root.depth);
            next_node = 1;
        }
        let mut next_fine: usize = 0;
        let mut k: usize = 0;
        while k < tokens.len()
            invariant
                k <= tokens.len(),
                next_node <= nodes.len(),
                views == token_views(tokens@),
                (Progress { builder: self@, next_node: next_node as int }) == merged(
                    init,
                    nodes@,
                    fine@,
                    views,
                    k as int,
                ),
                next_fine == pending_after(fine@, views, k as int),
            decreases tokens.len() - k,
        {
            let token = &tokens[k];
            assert(views[k as int] == token@);
            next_node = self.open_pending(nodes, next_node, token);
            let (kind, after) = resolve_kind(token, fine, next_fine);
            self.append_leaf(kind, token.text.as_str());
            next_fine = after;
            k += 1;
        }
        proof {
            lemma_reconciled(old(self)@, nodes@, fine@, views);
        }
        self.close_to(1);
    }

    /// Parses one statement into the tree under construction.
    ///
    /// `text` is the statement, `at_offset` the byte offset at which it
    /// starts in the enclosing document (0 where none is given), `scanned`
    /// and `parsed` what the grammar made of the same text: its tokens and
    /// its nodes, or the message with which it failed.
    ///
    /// Whatever the grammar delivered, the text of the tree grows by exactly
    /// `text`. Each failure of the grammar becomes one diagnostic over the
    /// whole statement. Only a character that the classifier cannot sort
    /// makes the call fail; the parser is then left as it was.
    pub fn parse_statement(
        &mut self,
        text: &str,
        at_offset: Option<u32>,
        scanned: Result<Vec<GrammarToken>, String>,
        parsed: Result<Vec<AstNode>, String>,
    ) -> (result: Result<(), UnsupportedInput>)
        requires
            at_offset.unwrap_or(0) + byte_len(text@) <= u32::MAX,
        ensures
            match result {
                Ok(_) => {
                    &&& scan(text@) is Ok
                    &&& final(self)@ == parsed_statement(
                        old(self)@,
                        text@,
                        at_offset.unwrap_or(0) as int,
                        scanned,
                        parsed,
                    )
                    &&& final(self)@.text() == old(self)@.text() + text@
                    &&& final(self)@.leaves() == old(self)@.leaves() + leaves_of(
                        delivered(scanned),
                        tokens_of(text@),
                        tokens_of(text@).len() as int,
                    )
                    &&& final(self)@.diagnostics == noted(
                        noted(
                            old(self)@,
                            scanned,
                            statement_span(at_offset.unwrap_or(0) as int, text@),
                        ),
                        parsed,
                        statement_span(at_offset.unwrap_or(0) as int, text@),
                    ).diagnostics
                    &&& parsed is Err ==> final(self)@.nodes() == old(self)@.nodes()
                    &&& parsed is Err && old(self)@.stack.len() == 0 ==> {
                        &&& final(self)@.stack.len() == 0
                        &&& final(self)@.roots == old(self)@.roots + flat(
                            leaves_of(
                                delivered(scanned),
                                tokens_of(text@),
                                tokens_of(text@).len() as int,
                            ),
                        )
                    }
                    &&& old(self)@.wf() ==> final(self)@.wf()
                },
                Err(error) => {
                    &&& scan(text@) is Err
                    &&& error.at == byte_offset(text@, scan(text@)->Err_0)
                    &&& final(self)@ == old(self)@
                },
            },
    {
        let tokens = match lex(text) {
            Ok(tokens) => tokens,
            Err(error) => {
                return Err(error);
            },
        };
        let offset: u32 = match at_offset {
            Some(offset) => offset,
            None => 0,
        };
        let length = byte_length(text);
        let span = SourceSpan { start: offset as usize, end: offset as usize + length };
        let fine = match scanned {
            Ok(fine) => fine,
            Err(message) => {
                self.record_error(message, span);
                Vec::new()
            },
        };
        let nodes = match parsed {
            Ok(nodes) => sort_by_position(&nodes),
            Err(message) => {
                self.record_error(message, span);
                Vec::new()
            },
        };
        proof {
            if self@.stack.len() == 0 && nodes.len() == 0 {
                lemma_reconciled_without_nodes(self@, fine@, token_views(tokens@));
            }
        }
        self.reconcile(&tokens, &nodes, &fine);
        Ok(())
    }
}

/// Parses one statement by itself and hands out its tree and its
/// diagnostics.
///
/// The tree reads as `text`, whatever the grammar delivered. Where the
/// grammar's parse failed, the tree is the row of the leaves of the tokens.
/// The call fails only where the classifier cannot sort a character.
pub fn parse(
    text: &str,
    at_offset: Option<u32>,
    scanned: Result<Vec<GrammarToken>, String>,
    parsed: Result<Vec<AstNode>, String>,
) -> (result: Result<Parse, UnsupportedInput>)
    requires
        at_offset.unwrap_or(0) + byte_len(text@) <= u32::MAX,
    ensures
        match result {
            Ok(parse) => {
                &&& scan(text@) is Ok
                &&& parse.tree@ == parsed_statement(
                    Builder::empty(),
                    text@,
                    at_offset.unwrap_or(0) as int,
                    scanned,
                    parsed,
                ).finish()
                &&& diagnostics_view(parse.diagnostics@) == noted(
                    noted(
                        Builder::empty(),
                        scanned,
                        statement_span(at_offset.unwrap_or(0) as int, text@),
                    ),
                    parsed,
                    statement_span(at_offset.unwrap_or(0) as int, text@),
                ).diagnostics
                &&& forest_text(parse.tree@) == text@
                &&& forest_leaves(parse.tree@) == leaves_of(
                    delivered(scanned),
                    tokens_of(text@),
                    tokens_of(text@).len() as int,
                )
                &&& parsed is Err ==> parse.tree@ == flat(
                    leaves_of(delivered(scanned), tokens_of(text@), tokens_of(text@).len() as int),
                )
            },
            Err(error) => {
                &&& scan(text@) is Err
                &&& error.at == byte_offset(text@, scan(text@)->Err_0)
            },
        },
{
    let mut parser = Parser::new();
    let ghost delivered_tokens = scanned;
    let ghost delivered_nodes = parsed;
    match parser.parse_statement(text, at_offset, scanned, parsed) {
        Ok(_) => {
            proof {
                lemma_statement_text(
                    Builder::empty(),
                    text@,
                    at_offset.unwrap_or(0) as int,
                    delivered_tokens,
                    delivered_nodes,
                );
                lemma_finish(parser@);
                assert(Builder::empty().leaves() =~= Seq::empty());
                assert(Builder::empty().leaves() + parser@.leaves() =~= parser@.leaves());
                if delivered_nodes is Err {
                    assert(Builder::empty().roots + parser@.roots =~= parser@.roots);
                }
            }
            Ok(parser.finish())
        },
        Err(error) => Err(error),
    }
}

} // verus!
