use parser::grammar::{sort_by_position, AstNode};
use parser::parser::{ParseDiagnostic, Parser};
use parser::span::SourceSpan;
use parser::syntax_kind::SyntaxKind;
use parser::tree::{SyntaxElement, SyntaxTree};

fn leaf(kind: SyntaxKind, text: &str) -> SyntaxElement {
    SyntaxElement::Leaf { kind, text: text.to_string() }
}

fn node(kind: SyntaxKind, children: Vec<SyntaxElement>) -> SyntaxElement {
    SyntaxElement::Node { kind, children }
}

fn ast(kind: i32, position: usize, depth: u32) -> AstNode {
    AstNode { kind: SyntaxKind::Node(kind), position, depth }
}

#[test]
fn new_parser_holds_nothing() {
    let parser = Parser::new();
    assert_eq!(parser.depth(), 0);
    let parse = parser.finish();
    assert_eq!(parse.tree, SyntaxTree { roots: vec![] });
    assert_eq!(parse.diagnostics, vec![]);
    assert_eq!(parse.tree.text(), "");
}

#[test]
fn leaves_without_an_open_node_go_to_the_root() {
    let mut parser = Parser::new();
    parser.append_leaf(SyntaxKind::Word, "a");
    parser.append_leaf(SyntaxKind::Whitespace, " ");
    let parse = parser.finish();
    assert_eq!(
        parse.tree.roots,
        vec![leaf(SyntaxKind::Word, "a"), leaf(SyntaxKind::Whitespace, " ")]
    );
}

#[test]
fn leaves_go_to_the_innermost_open_node() {
    let mut parser = Parser::new();
    parser.open(SyntaxKind::Node(1), 1);
    parser.append_leaf(SyntaxKind::Word, "a");
    parser.open(SyntaxKind::Node(2), 2);
    parser.append_leaf(SyntaxKind::Word, "b");
    assert_eq!(parser.depth(), 2);
    let parse = parser.finish();
    assert_eq!(
        parse.tree.roots,
        vec![node(
            SyntaxKind::Node(1),
            vec![
                leaf(SyntaxKind::Word, "a"),
                node(SyntaxKind::Node(2), vec![leaf(SyntaxKind::Word, "b")]),
            ]
        )]
    );
    assert_eq!(parse.tree.text(), "ab");
}

#[test]
fn opening_at_the_same_depth_closes_the_sibling() {
    let mut parser = Parser::new();
    parser.open(SyntaxKind::Node(1), 1);
    parser.open(SyntaxKind::Node(2), 2);
    parser.append_leaf(SyntaxKind::Word, "a");
    parser.open(SyntaxKind::Node(3), 2);
    assert_eq!(parser.depth(), 2);
    parser.append_leaf(SyntaxKind::Word, "b");
    let parse = parser.finish();
    assert_eq!(
        parse.tree.roots,
        vec![node(
            SyntaxKind::Node(1),
            vec![
                node(SyntaxKind::Node(2), vec![leaf(SyntaxKind::Word, "a")]),
                node(SyntaxKind::Node(3), vec![leaf(SyntaxKind::Word, "b")]),
            ]
        )]
    );
}

#[test]
fn opening_higher_up_closes_everything_below() {
    let mut parser = Parser::new();
    parser.open(SyntaxKind::Node(1), 1);
    parser.open(SyntaxKind::Node(2), 2);
    parser.open(SyntaxKind::Node(3), 3);
    parser.open(SyntaxKind::Node(4), 4);
    parser.append_leaf(SyntaxKind::Word, "a");
    assert_eq!(parser.depth(), 4);
    parser.open(SyntaxKind::Node(5), 2);
    assert_eq!(parser.depth(), 2);
    parser.append_leaf(SyntaxKind::Word, "b");
    let parse = parser.finish();
    assert_eq!(
        parse.tree.roots,
        vec![node(
            SyntaxKind::Node(1),
            vec![
                node(
                    SyntaxKind::Node(2),
                    vec![node(
                        SyntaxKind::Node(3),
                        vec![node(SyntaxKind::Node(4), vec![leaf(SyntaxKind::Word, "a")])]
                    )]
                ),
                node(SyntaxKind::Node(5), vec![leaf(SyntaxKind::Word, "b")]),
            ]
        )]
    );
}

#[test]
fn a_node_may_open_more_than_one_level_down() {
    let mut parser = Parser::new();
    parser.open(SyntaxKind::Node(1), 1);
    parser.open(SyntaxKind::Node(2), 5);
    assert_eq!(parser.depth(), 5);
    parser.open(SyntaxKind::Node(3), 3);
    assert_eq!(parser.depth(), 3);
    let parse = parser.finish();
    assert_eq!(
        parse.tree.roots,
        vec![node(
            SyntaxKind::Node(1),
            vec![node(SyntaxKind::Node(2), vec![]), node(SyntaxKind::Node(3), vec![])]
        )]
    );
}

#[test]
fn close_to_keeps_what_is_less_deep() {
    let mut parser = Parser::new();
    parser.open(SyntaxKind::Node(1), 1);
    parser.open(SyntaxKind::Node(2), 2);
    parser.open(SyntaxKind::Node(3), 3);
    parser.close_to(3);
    assert_eq!(parser.depth(), 2);
    parser.close_to(3);
    assert_eq!(parser.depth(), 2);
    parser.close_to(1);
    assert_eq!(parser.depth(), 0);
    parser.close_to(1);
    assert_eq!(parser.depth(), 0);
    parser.append_leaf(SyntaxKind::Word, "x");
    let parse = parser.finish();
    assert_eq!(
        parse.tree.roots,
        vec![
            node(
                SyntaxKind::Node(1),
                vec![node(SyntaxKind::Node(2), vec![node(SyntaxKind::Node(3), vec![])])]
            ),
            leaf(SyntaxKind::Word, "x"),
        ]
    );
}

#[test]
fn a_node_at_depth_zero_is_closed_at_the_end() {
    let mut parser = Parser::new();
    parser.open(SyntaxKind::Node(1), 0);
    parser.append_leaf(SyntaxKind::Word, "a");
    parser.close_to(1);
    assert_eq!(parser.depth(), 0);
    parser.append_leaf(SyntaxKind::Word, "b");
    let parse = parser.finish();
    assert_eq!(
        parse.tree.roots,
        vec![node(
            SyntaxKind::Node(1),
            vec![leaf(SyntaxKind::Word, "a"), leaf(SyntaxKind::Word, "b")]
        )]
    );
}

#[test]
fn two_statements_stand_side_by_side() {
    let mut parser = Parser::new();
    parser.open(SyntaxKind::Node(1), 1);
    parser.append_leaf(SyntaxKind::Word, "a");
    parser.close_to(1);
    parser.open(SyntaxKind::Node(2), 1);
    parser.append_leaf(SyntaxKind::Word, "b");
    parser.close_to(1);
    let parse = parser.finish();
    assert_eq!(
        parse.tree.roots,
        vec![
            node(SyntaxKind::Node(1), vec![leaf(SyntaxKind::Word, "a")]),
            node(SyntaxKind::Node(2), vec![leaf(SyntaxKind::Word, "b")]),
        ]
    );
    assert_eq!(parse.tree.text(), "ab");
}

#[test]
fn errors_are_kept_in_order_and_leave_the_tree_alone() {
    let mut parser = Parser::new();
    parser.open(SyntaxKind::Node(1), 1);
    parser.record_error("first".to_string(), SourceSpan { start: 0, end: 3 });
    assert_eq!(parser.depth(), 1);
    parser.append_leaf(SyntaxKind::Word, "a");
    parser.record_error("second".to_string(), SourceSpan { start: 3, end: 9 });
    let parse = parser.finish();
    assert_eq!(
        parse.diagnostics,
        vec![
            ParseDiagnostic { message: "first".to_string(), span: SourceSpan { start: 0, end: 3 } },
            ParseDiagnostic { message: "second".to_string(), span: SourceSpan { start: 3, end: 9 } },
        ]
    );
    assert_eq!(
        parse.tree.roots,
        vec![node(SyntaxKind::Node(1), vec![leaf(SyntaxKind::Word, "a")])]
    );
}

#[test]
fn default_parser_is_a_new_parser() {
    let parse = Parser::default().finish();
    assert_eq!(parse.tree.roots, vec![]);
    assert_eq!(parse.diagnostics, vec![]);
}

#[test]
fn text_of_a_tree_reads_the_leaves_in_order() {
    let tree = SyntaxTree {
        roots: vec![
            leaf(SyntaxKind::Comment, "-- c"),
            node(
                SyntaxKind::Node(1),
                vec![
                    node(SyntaxKind::Node(2), vec![leaf(SyntaxKind::Word, "a"), node(SyntaxKind::Node(3), vec![])]),
                    leaf(SyntaxKind::Whitespace, " "),
                    node(SyntaxKind::Node(4), vec![leaf(SyntaxKind::Word, "b")]),
                ],
            ),
            leaf(SyntaxKind::Ascii59, ";"),
        ],
    };
    assert_eq!(tree.text(), "-- ca b;");
    let mut out = String::from(">");
    tree.roots[1].write_text(&mut out);
    assert_eq!(out, ">a b");
}

#[test]
fn span_contains_its_start_but_not_its_end() {
    let span = SourceSpan::new(3, 5);
    assert!(!span.contains(2));
    assert!(span.contains(3));
    assert!(span.contains(4));
    assert!(!span.contains(5));
    assert!(!SourceSpan::new(3, 3).contains(3));
}

#[test]
fn sorting_orders_by_position() {
    let nodes = vec![ast(1, 9, 1), ast(2, 0, 2), ast(3, 4, 3), ast(4, 2, 4)];
    assert_eq!(
        sort_by_position(&nodes),
        vec![ast(2, 0, 2), ast(4, 2, 4), ast(3, 4, 3), ast(1, 9, 1)]
    );
    assert_eq!(sort_by_position(&vec![]), vec![]);
}

#[test]
fn sorting_keeps_the_order_of_nodes_at_one_position() {
    let nodes = vec![
        ast(1, 7, 1),
        ast(2, 7, 2),
        ast(3, 0, 1),
        ast(4, 7, 3),
        ast(5, 0, 2),
        ast(6, 3, 9),
        ast(7, 0, 3),
    ];
    assert_eq!(
        sort_by_position(&nodes),
        vec![
            ast(3, 0, 1),
            ast(5, 0, 2),
            ast(7, 0, 3),
            ast(6, 3, 9),
            ast(1, 7, 1),
            ast(2, 7, 2),
            ast(4, 7, 3),
        ]
    );
}
