use parser::grammar::{AstNode, GrammarToken};
use parser::lexer::{lex, GenericToken, UnsupportedInput};
use parser::parser::{Parse, ParseDiagnostic, Parser};
use parser::span::SourceSpan;
use parser::statement::{resolve_kind, StatementToken};
use parser::syntax_kind::SyntaxKind;
use parser::tree::SyntaxElement;

const SELECT_STMT: i32 = 1;
const RES_TARGET: i32 = 2;
const COLUMN_REF: i32 = 3;
const A_STAR: i32 = 4;
const RANGE_VAR: i32 = 5;
const A_EXPR: i32 = 6;
const A_CONST: i32 = 7;
const STRING: i32 = 8;

const IDENT: i32 = 258;
const SCONST: i32 = 261;
const FROM: i32 = 428;
const SELECT: i32 = 603;
const WHERE: i32 = 703;

fn leaf(kind: SyntaxKind, text: &str) -> SyntaxElement {
    SyntaxElement::Leaf { kind, text: text.to_string() }
}

fn node(kind: i32, children: Vec<SyntaxElement>) -> SyntaxElement {
    SyntaxElement::Node { kind: SyntaxKind::Node(kind), children }
}

fn fine(kind: i32, start: usize, end: usize) -> GrammarToken {
    GrammarToken { kind: SyntaxKind::Token(kind), span: SourceSpan { start, end } }
}

fn ast(kind: i32, position: usize, depth: u32) -> AstNode {
    AstNode { kind: SyntaxKind::Node(kind), position, depth }
}

fn token(kind: StatementToken, start: usize, text: &str) -> GenericToken {
    GenericToken {
        kind,
        span: SourceSpan { start, end: start + text.len() },
        text: text.to_string(),
    }
}

fn parse(
    text: &str,
    offset: Option<u32>,
    scanned: Result<Vec<GrammarToken>, String>,
    parsed: Result<Vec<AstNode>, String>,
) -> Parse {
    let mut parser = Parser::default();
    parser.parse_statement(text, offset, scanned, parsed).unwrap();
    parser.finish()
}

fn leaves(elements: &[SyntaxElement], out: &mut Vec<(SyntaxKind, String)>) {
    for element in elements {
        match element {
            SyntaxElement::Leaf { kind, text } => out.push((*kind, text.clone())),
            SyntaxElement::Node { children, .. } => leaves(children, out),
        }
    }
}

fn count_nodes(elements: &[SyntaxElement]) -> usize {
    let mut n = 0;
    for element in elements {
        if let SyntaxElement::Node { children, .. } = element {
            n += 1 + count_nodes(children);
        }
    }
    n
}

fn scan_of_select_star() -> Vec<GrammarToken> {
    vec![
        fine(SELECT, 0, 6),
        fine(42, 7, 8),
        fine(FROM, 9, 13),
        fine(IDENT, 14, 15),
        fine(59, 15, 16),
    ]
}

fn nodes_of_select_star() -> Vec<AstNode> {
    vec![
        ast(SELECT_STMT, 0, 1),
        ast(RES_TARGET, 7, 2),
        ast(COLUMN_REF, 7, 3),
        ast(A_STAR, 7, 4),
        ast(RANGE_VAR, 14, 2),
    ]
}

#[test]
fn test_statement_parser() {
    let input = "select *,some_col from contact where id = '123 4 5';";

    let scanned = vec![
        fine(SELECT, 0, 6),
        fine(42, 7, 8),
        fine(44, 8, 9),
        fine(IDENT, 9, 17),
        fine(FROM, 18, 22),
        fine(IDENT, 23, 30),
        fine(WHERE, 31, 36),
        fine(IDENT, 37, 39),
        fine(61, 40, 41),
        fine(SCONST, 42, 51),
        fine(59, 51, 52),
    ];
    let nodes = vec![
        ast(SELECT_STMT, 0, 1),
        ast(RES_TARGET, 7, 2),
        ast(COLUMN_REF, 7, 3),
        ast(A_STAR, 7, 4),
        ast(RES_TARGET, 9, 2),
        ast(COLUMN_REF, 9, 3),
        ast(STRING, 9, 4),
        ast(RANGE_VAR, 23, 2),
        ast(A_EXPR, 37, 2),
        ast(COLUMN_REF, 37, 3),
        ast(STRING, 37, 4),
        ast(A_CONST, 42, 3),
    ];

    let mut parser = Parser::default();
    parser.parse_statement(input, None, Ok(scanned), Ok(nodes)).unwrap();
    let parsed = parser.finish();

    assert_eq!(parsed.tree.text(), input);
}

#[test]
fn select_star_gives_one_statement_node() {
    let input = "select * from t;";
    let parsed = parse(input, None, Ok(scan_of_select_star()), Ok(nodes_of_select_star()));
    assert_eq!(parsed.diagnostics, vec![]);
    assert_eq!(
        parsed.tree.roots,
        vec![node(
            SELECT_STMT,
            vec![
                leaf(SyntaxKind::Token(SELECT), "select"),
                leaf(SyntaxKind::Whitespace, " "),
                node(
                    RES_TARGET,
                    vec![node(
                        COLUMN_REF,
                        vec![node(
                            A_STAR,
                            vec![
                                leaf(SyntaxKind::Token(42), "*"),
                                leaf(SyntaxKind::Whitespace, " "),
                                leaf(SyntaxKind::Token(FROM), "from"),
                                leaf(SyntaxKind::Whitespace, " "),
                            ]
                        )]
                    )]
                ),
                node(
                    RANGE_VAR,
                    vec![leaf(SyntaxKind::Token(IDENT), "t"), leaf(SyntaxKind::Token(59), ";")]
                ),
            ]
        )]
    );
    assert_eq!(parsed.tree.text(), input);
}

#[test]
fn statement_node_holds_the_leaves_of_the_statement() {
    let input = "select * from t;";
    let parsed = parse(input, None, Ok(scan_of_select_star()), Ok(vec![ast(SELECT_STMT, 0, 1)]));
    assert_eq!(parsed.diagnostics, vec![]);
    assert_eq!(
        parsed.tree.roots,
        vec![node(
            SELECT_STMT,
            vec![
                leaf(SyntaxKind::Token(SELECT), "select"),
                leaf(SyntaxKind::Whitespace, " "),
                leaf(SyntaxKind::Token(42), "*"),
                leaf(SyntaxKind::Whitespace, " "),
                leaf(SyntaxKind::Token(FROM), "from"),
                leaf(SyntaxKind::Whitespace, " "),
                leaf(SyntaxKind::Token(IDENT), "t"),
                leaf(SyntaxKind::Token(59), ";"),
            ]
        )]
    );
}

#[test]
fn quoted_literal_is_a_single_leaf() {
    let input = "select * from t where id = '123 4 5';";
    let parsed = parse(input, None, Err("no scan".to_string()), Err("no parse".to_string()));
    let mut found = Vec::new();
    leaves(&parsed.tree.roots, &mut found);
    assert_eq!(found[14], (SyntaxKind::Sconst, "'123 4 5'".to_string()));
    assert_eq!(found.len(), 16);
    assert_eq!(parsed.tree.text(), input);

    let scanned = vec![
        fine(SELECT, 0, 6),
        fine(42, 7, 8),
        fine(FROM, 9, 13),
        fine(IDENT, 14, 15),
        fine(WHERE, 16, 21),
        fine(IDENT, 22, 24),
        fine(61, 25, 26),
        fine(SCONST, 27, 36),
        fine(59, 36, 37),
    ];
    let parsed = parse(input, None, Ok(scanned), Ok(vec![ast(SELECT_STMT, 0, 1)]));
    let mut found = Vec::new();
    leaves(&parsed.tree.roots, &mut found);
    assert_eq!(found[14], (SyntaxKind::Token(SCONST), "'123 4 5'".to_string()));
    assert_eq!(parsed.tree.text(), input);
}

#[test]
fn malformed_statement_degrades_to_leaves_at_the_root() {
    let input = "selec * fro";
    let scanned = vec![fine(IDENT, 0, 5), fine(42, 6, 7), fine(IDENT, 8, 11)];
    let parsed = parse(
        input,
        None,
        Ok(scanned),
        Err("syntax error at or near \"selec\"".to_string()),
    );
    assert_eq!(
        parsed.tree.roots,
        vec![
            leaf(SyntaxKind::Token(IDENT), "selec"),
            leaf(SyntaxKind::Whitespace, " "),
            leaf(SyntaxKind::Token(42), "*"),
            leaf(SyntaxKind::Whitespace, " "),
            leaf(SyntaxKind::Token(IDENT), "fro"),
        ]
    );
    assert_eq!(
        parsed.diagnostics,
        vec![ParseDiagnostic {
            message: "syntax error at or near \"selec\"".to_string(),
            span: SourceSpan { start: 0, end: 11 },
        }]
    );
    assert_eq!(parsed.tree.text(), input);
}

#[test]
fn empty_statement_gives_an_empty_tree() {
    let parsed = parse("", None, Ok(vec![]), Ok(vec![]));
    assert_eq!(parsed.tree.roots, vec![]);
    assert_eq!(parsed.diagnostics, vec![]);
    assert_eq!(parsed.tree.text(), "");
}

#[test]
fn unsupported_input_fails_and_builds_nothing() {
    let mut parser = Parser::default();
    let result = parser.parse_statement(
        "select \"a\" from t",
        Some(100),
        Err("scan".to_string()),
        Ok(vec![ast(SELECT_STMT, 0, 1)]),
    );
    assert_eq!(result, Err(UnsupportedInput { at: 7 }));
    assert_eq!(parser.depth(), 0);
    let parsed = parser.finish();
    assert_eq!(parsed.tree.roots, vec![]);
    assert_eq!(parsed.diagnostics, vec![]);
}

#[test]
fn both_failures_are_noted_scan_first() {
    let parsed = parse("a b", Some(10), Err("scan failed".to_string()), Err("parse failed".to_string()));
    assert_eq!(
        parsed.diagnostics,
        vec![
            ParseDiagnostic {
                message: "scan failed".to_string(),
                span: SourceSpan { start: 10, end: 13 },
            },
            ParseDiagnostic {
                message: "parse failed".to_string(),
                span: SourceSpan { start: 10, end: 13 },
            },
        ]
    );
    assert_eq!(
        parsed.tree.roots,
        vec![
            leaf(SyntaxKind::Word, "a"),
            leaf(SyntaxKind::Whitespace, " "),
            leaf(SyntaxKind::Word, "b"),
        ]
    );
}

#[test]
fn span_of_a_diagnostic_counts_bytes_from_the_offset() {
    let parsed = parse("caf\u{e9}", Some(7), Ok(vec![]), Err("no".to_string()));
    assert_eq!(parsed.diagnostics[0].span, SourceSpan { start: 7, end: 12 });
    let parsed = parse("", Some(u32::MAX), Err("no".to_string()), Ok(vec![]));
    assert_eq!(
        parsed.diagnostics[0].span,
        SourceSpan { start: u32::MAX as usize, end: u32::MAX as usize }
    );
}

#[test]
fn text_is_kept_whatever_the_grammar_delivers() {
    let inputs = [
        "select * from t;",
        "selec * fro",
        "  select\n\t1 -- one\n/* two */;",
        "caf\u{e9} = '\u{1f600}'",
        "",
    ];
    let scans: [Result<Vec<GrammarToken>, String>; 4] = [
        Err("no".to_string()),
        Ok(vec![]),
        Ok(scan_of_select_star()),
        Ok(vec![fine(IDENT, 3, 400), fine(IDENT, 0, 0), fine(IDENT, 50, 2)]),
    ];
    let parses: [Result<Vec<AstNode>, String>; 5] = [
        Err("no".to_string()),
        Ok(vec![]),
        Ok(nodes_of_select_star()),
        Ok(vec![ast(1, 5, 7), ast(2, 0, 0), ast(3, 2, 3), ast(4, 2, 1), ast(5, 900, 2)]),
        Ok(vec![ast(1, 0, 3), ast(2, 0, 2), ast(3, 0, 1)]),
    ];
    for input in inputs {
        for scanned in &scans {
            for parsed in &parses {
                let parse = parse(input, Some(3), scanned.clone(), parsed.clone());
                assert_eq!(parse.tree.text(), input);
                let mut found = Vec::new();
                leaves(&parse.tree.roots, &mut found);
                let tokens = lex(input).unwrap();
                assert_eq!(found.len(), tokens.len());
                for (leaf, token) in found.iter().zip(tokens.iter()) {
                    assert_eq!(leaf.1, token.text);
                }
            }
        }
    }
}

#[test]
fn failed_parse_leaves_no_node_in_the_tree() {
    for input in ["select * from t;", "selec * fro", "a\n\nb", ""] {
        let parsed = parse(input, None, Ok(scan_of_select_star()), Err("no".to_string()));
        assert_eq!(count_nodes(&parsed.tree.roots), 0);
        assert_eq!(parsed.tree.roots.len(), lex(input).unwrap().len());
        assert_eq!(parsed.diagnostics.len(), 1);
        assert_eq!(parsed.tree.text(), input);
    }
}

#[test]
fn parsing_twice_gives_the_same() {
    let input = "select * from t;";
    let first = parse(input, Some(4), Ok(scan_of_select_star()), Ok(nodes_of_select_star()));
    let second = parse(input, Some(4), Ok(scan_of_select_star()), Ok(nodes_of_select_star()));
    assert_eq!(first, second);
    let first = parse("selec * fro", Some(4), Err("a".to_string()), Err("b".to_string()));
    let second = parse("selec * fro", Some(4), Err("a".to_string()), Err("b".to_string()));
    assert_eq!(first, second);
}

#[test]
fn nodes_are_put_in_order_before_they_are_opened() {
    let input = "select * from t;";
    let mut shuffled = nodes_of_select_star();
    shuffled.reverse();
    shuffled.swap(1, 3);
    // positions 14, 7, 7, 7, 0 with the depths 2, 2, 3, 4, 1
    let parsed = parse(input, None, Ok(scan_of_select_star()), Ok(shuffled));
    let ordered = parse(input, None, Ok(scan_of_select_star()), Ok(nodes_of_select_star()));
    assert_eq!(parsed, ordered);
}

#[test]
fn several_nodes_open_inside_one_token() {
    let parsed = parse(
        "a b",
        None,
        Ok(vec![]),
        Ok(vec![ast(1, 0, 1), ast(2, 0, 2), ast(3, 0, 3), ast(4, 2, 2)]),
    );
    assert_eq!(
        parsed.tree.roots,
        vec![node(
            1,
            vec![
                node(
                    2,
                    vec![node(3, vec![leaf(SyntaxKind::Word, "a"), leaf(SyntaxKind::Whitespace, " ")])]
                ),
                node(4, vec![leaf(SyntaxKind::Word, "b")]),
            ]
        )]
    );
}

#[test]
fn first_node_is_the_root_wherever_it_starts() {
    let parsed = parse("a b", None, Ok(vec![]), Ok(vec![ast(1, 2, 1), ast(2, 2, 2)]));
    assert_eq!(
        parsed.tree.roots,
        vec![node(
            1,
            vec![
                leaf(SyntaxKind::Word, "a"),
                leaf(SyntaxKind::Whitespace, " "),
                node(2, vec![leaf(SyntaxKind::Word, "b")]),
            ]
        )]
    );
}

#[test]
fn a_node_that_starts_nowhere_in_the_text_is_never_opened() {
    let parsed = parse("a b", None, Ok(vec![]), Ok(vec![ast(1, 0, 1), ast(2, 3, 2), ast(3, 9, 2)]));
    assert_eq!(
        parsed.tree.roots,
        vec![node(
            1,
            vec![
                leaf(SyntaxKind::Word, "a"),
                leaf(SyntaxKind::Whitespace, " "),
                leaf(SyntaxKind::Word, "b"),
            ]
        )]
    );
}

#[test]
fn fine_kind_wins_where_the_pending_token_touches() {
    let word = token(StatementToken::Word, 4, "from");
    // starts inside
    assert_eq!(
        resolve_kind(&word, &vec![fine(FROM, 4, 8)], 0),
        (SyntaxKind::Token(FROM), 1)
    );
    assert_eq!(
        resolve_kind(&word, &vec![fine(FROM, 7, 20)], 0),
        (SyntaxKind::Token(FROM), 1)
    );
    // ends inside
    assert_eq!(
        resolve_kind(&word, &vec![fine(FROM, 0, 4)], 0),
        (SyntaxKind::Token(FROM), 1)
    );
    assert_eq!(
        resolve_kind(&word, &vec![fine(FROM, 0, 7)], 0),
        (SyntaxKind::Token(FROM), 1)
    );
}

#[test]
fn coarse_kind_stays_where_the_pending_token_does_not_touch() {
    let word = token(StatementToken::Word, 4, "from");
    // ends where the token starts, or starts where it ends
    assert_eq!(resolve_kind(&word, &vec![fine(FROM, 0, 3)], 0), (SyntaxKind::Word, 0));
    assert_eq!(resolve_kind(&word, &vec![fine(FROM, 8, 9)], 0), (SyntaxKind::Word, 0));
    // covers the token without starting or ending in it
    assert_eq!(resolve_kind(&word, &vec![fine(FROM, 0, 8)], 0), (SyntaxKind::Word, 0));
    // nothing pending
    assert_eq!(resolve_kind(&word, &vec![], 0), (SyntaxKind::Word, 0));
    assert_eq!(resolve_kind(&word, &vec![fine(FROM, 4, 8)], 1), (SyntaxKind::Word, 1));
    assert_eq!(resolve_kind(&word, &vec![fine(FROM, 4, 8)], 7), (SyntaxKind::Word, 7));
    // only the pending one counts
    assert_eq!(
        resolve_kind(&word, &vec![fine(SELECT, 20, 26), fine(FROM, 4, 8)], 0),
        (SyntaxKind::Word, 0)
    );
    assert_eq!(
        resolve_kind(&word, &vec![fine(SELECT, 20, 26), fine(FROM, 4, 8)], 1),
        (SyntaxKind::Token(FROM), 2)
    );
}

#[test]
fn white_space_keeps_its_coarse_kind_between_fine_tokens() {
    let parsed = parse(
        "select  1",
        None,
        Ok(vec![fine(SELECT, 0, 6), fine(IDENT, 8, 9)]),
        Ok(vec![]),
    );
    assert_eq!(
        parsed.tree.roots,
        vec![
            leaf(SyntaxKind::Token(SELECT), "select"),
            leaf(SyntaxKind::Whitespace, "  "),
            leaf(SyntaxKind::Token(IDENT), "1"),
        ]
    );
}

#[test]
fn a_fine_token_that_is_passed_by_blocks_the_later_ones() {
    let parsed = parse(
        "a b c",
        None,
        Ok(vec![fine(IDENT, 0, 1), fine(IDENT, 100, 101), fine(IDENT, 4, 5)]),
        Ok(vec![]),
    );
    assert_eq!(
        parsed.tree.roots,
        vec![
            leaf(SyntaxKind::Token(IDENT), "a"),
            leaf(SyntaxKind::Whitespace, " "),
            leaf(SyntaxKind::Word, "b"),
            leaf(SyntaxKind::Whitespace, " "),
            leaf(SyntaxKind::Word, "c"),
        ]
    );
}

#[test]
fn reconcile_takes_the_three_streams_as_they_are() {
    let tokens = vec![
        token(StatementToken::Word, 0, "a"),
        token(StatementToken::Whitespace, 1, " "),
        token(StatementToken::Word, 2, "b"),
    ];
    let mut parser = Parser::new();
    parser.reconcile(
        &tokens,
        &vec![ast(1, 2, 1), ast(2, 1, 2), ast(3, 0, 3)],
        &vec![fine(IDENT, 0, 1), fine(IDENT, 2, 3)],
    );
    assert_eq!(parser.depth(), 0);
    let parsed = parser.finish();
    // the nodes are taken in the order given: the third one never opens
    assert_eq!(
        parsed.tree.roots,
        vec![node(
            1,
            vec![
                leaf(SyntaxKind::Token(IDENT), "a"),
                node(
                    2,
                    vec![leaf(SyntaxKind::Whitespace, " "), leaf(SyntaxKind::Token(IDENT), "b")]
                ),
            ]
        )]
    );
}

#[test]
fn open_pending_stops_at_the_first_node_outside_the_token() {
    let nodes = vec![ast(1, 0, 1), ast(2, 1, 2), ast(3, 5, 3), ast(4, 1, 4)];
    let mut parser = Parser::new();
    let word = token(StatementToken::Word, 0, "ab");
    assert_eq!(parser.open_pending(&nodes, 0, &word), 2);
    assert_eq!(parser.depth(), 2);
    assert_eq!(parser.open_pending(&nodes, 2, &word), 2);
    assert_eq!(parser.open_pending(&nodes, 3, &word), 4);
    assert_eq!(parser.depth(), 4);
    assert_eq!(parser.open_pending(&nodes, 4, &word), 4);
}

#[test]
fn a_second_statement_is_added_behind_the_first() {
    let mut parser = Parser::new();
    parser.parse_statement("a;", None, Ok(vec![]), Ok(vec![ast(1, 0, 1)])).unwrap();
    parser.parse_statement("b;", Some(2), Ok(vec![]), Err("bad".to_string())).unwrap();
    let parsed = parser.finish();
    assert_eq!(
        parsed.tree.roots,
        vec![
            node(1, vec![leaf(SyntaxKind::Word, "a"), leaf(SyntaxKind::Ascii59, ";")]),
            leaf(SyntaxKind::Word, "b"),
            leaf(SyntaxKind::Ascii59, ";"),
        ]
    );
    assert_eq!(parsed.tree.text(), "a;b;");
    assert_eq!(
        parsed.diagnostics,
        vec![ParseDiagnostic { message: "bad".to_string(), span: SourceSpan { start: 2, end: 4 } }]
    );
}

#[test]
fn one_statement_by_itself() {
    let parsed = parser::statement::parse(
        "selec * fro",
        Some(5),
        Err("scan".to_string()),
        Err("parse".to_string()),
    )
    .unwrap();
    assert_eq!(
        parsed.tree.roots,
        vec![
            leaf(SyntaxKind::Word, "selec"),
            leaf(SyntaxKind::Whitespace, " "),
            leaf(SyntaxKind::Ascii42, "*"),
            leaf(SyntaxKind::Whitespace, " "),
            leaf(SyntaxKind::Word, "fro"),
        ]
    );
    assert_eq!(
        parsed.diagnostics,
        vec![
            ParseDiagnostic { message: "scan".to_string(), span: SourceSpan { start: 5, end: 16 } },
            ParseDiagnostic { message: "parse".to_string(), span: SourceSpan { start: 5, end: 16 } },
        ]
    );
    let whole = parser::statement::parse(
        "select * from t;",
        None,
        Ok(scan_of_select_star()),
        Ok(nodes_of_select_star()),
    )
    .unwrap();
    assert_eq!(whole, parse("select * from t;", None, Ok(scan_of_select_star()), Ok(nodes_of_select_star())));
    assert_eq!(whole.tree.text(), "select * from t;");
    assert_eq!(
        parser::statement::parse("a \"b\"", None, Ok(vec![]), Ok(vec![])),
        Err(UnsupportedInput { at: 2 })
    );
}
