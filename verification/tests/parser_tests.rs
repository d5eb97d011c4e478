use tcalc::ast::{Ast, AstNode};
use tcalc::parser::Parser;
use tcalc::position::Position;
use tcalc::tokens::{Token, TokenType};

fn text(node: &AstNode) -> String {
    node.token.content.iter().collect()
}

fn children(node: &AstNode) -> &Ast {
    node.subtree.as_ref().expect("node has no subtree")
}

/// Renders a tree in prefix form, for comparison.
fn shape(tree: &Ast) -> String {
    let mut parts: Vec<String> = Vec::new();
    for node in tree.nodes.iter() {
        match &node.subtree {
            None => parts.push(text(node)),
            Some(sub) => {
                if node.token.type_ == TokenType::Expression {
                    parts.push(format!("({})", shape(sub)));
                } else {
                    parts.push(format!("[{} {}]", text(node), shape(sub)));
                }
            }
        }
    }
    parts.join(" ")
}

fn parse(input: &str) -> Ast {
    let mut parser = Parser::new();
    parser.parse(input, 0, 0).expect("parse failed")
}

fn parse_error(input: &str) -> (String, usize, usize) {
    let mut parser = Parser::new();
    match parser.parse(input, 0, 0) {
        Ok(_) => panic!("parse succeeded"),
        Err(e) => (e.msg.clone(), e.position.line, e.position.chr),
    }
}

#[test]
fn sum_of_two_integers_is_a_binary_node() {
    let tree = parse("2+3");
    assert_eq!(tree.len(), 1);
    let root = &tree.nodes[0];
    assert_eq!(root.token.type_, TokenType::BinaryOperator);
    assert_eq!(text(root), "+");
    let operands = children(root);
    assert_eq!(operands.len(), 2);
    assert_eq!(operands.level(), 1);
    assert_eq!(operands.nodes[0].token.type_, TokenType::Integer);
    assert_eq!(text(&operands.nodes[0]), "2");
    assert_eq!(operands.nodes[1].token.type_, TokenType::Integer);
    assert_eq!(text(&operands.nodes[1]), "3");
}

#[test]
fn adjacent_numerals_are_multiplied() {
    let tree = parse("2 3");
    assert_eq!(shape(&tree), "[* 2 3]");
    let root = &tree.nodes[0];
    assert!(root.token.implicit);
    assert_eq!(root.token.type_, TokenType::BinaryOperator);
    assert_eq!(root.token.position.chr, 2);
}

#[test]
fn leading_binary_operator_takes_previous_result() {
    let tree = parse("* 3");
    assert_eq!(tree.len(), 1);
    let root = &tree.nodes[0];
    assert_eq!(root.token.type_, TokenType::BinaryOperator);
    assert_eq!(text(root), "*");
    let operands = children(root);
    assert_eq!(operands.len(), 2);
    let left = &operands.nodes[0];
    assert_eq!(left.token.type_, TokenType::Expression);
    assert!(left.token.implicit);
    assert_eq!(text(left), "(mem 0)");
    let call = &children(left).nodes[0];
    assert_eq!(call.token.type_, TokenType::UnaryFunctionIdentifier);
    assert_eq!(text(call), "mem");
    assert_eq!(text(&children(call).nodes[0]), "0");
    assert_eq!(children(call).level(), 3);
    assert_eq!(text(&operands.nodes[1]), "3");
    assert_eq!(operands.nodes[1].token.type_, TokenType::Integer);
}

#[test]
fn same_tier_operators_group_to_the_right() {
    assert_eq!(shape(&parse("a * b / c")), "[* a [/ b c]]");
    assert_eq!(shape(&parse("a - b - c")), "[- a [- b c]]");
}

#[test]
fn tighter_tiers_fold_first() {
    assert_eq!(shape(&parse("a + b * c ^ d")), "[+ a [* b [^ c d]]]");
    assert_eq!(shape(&parse("a ^ b * c + d")), "[+ [* [^ a b] c] d]");
    assert_eq!(shape(&parse("x := a && b == c")), "[:= x [&& a [== b c]]]");
}

#[test]
fn factorials_nest_to_the_left() {
    assert_eq!(shape(&parse("x ! !")), "[! [! x]]");
}

#[test]
fn prefix_operators_nest_to_the_right() {
    assert_eq!(shape(&parse("(- + x)")), "([- [+ x]])");
    assert_eq!(shape(&parse("(-x!)")), "([- [! x]])");
    assert_eq!(shape(&parse("-x!")), "[- ([mem 0]) [! x]]");
}

#[test]
fn parentheses_nest_and_level() {
    let tree = parse("2 (3 + (4))");
    assert_eq!(shape(&tree), "[* 2 ([+ 3 (4)])]");
    let product = children(&tree.nodes[0]);
    assert_eq!(product.level(), 1);
    let group = children(&product.nodes[1]);
    assert_eq!(group.level(), 2);
    let sum = children(&group.nodes[0]);
    assert_eq!(sum.level(), 3);
    assert_eq!(children(&sum.nodes[1]).level(), 4);
}

#[test]
fn sample_expression_folds() {
    let tree = parse("0b1001101.100101 + 83_382_292x22 / 0b000101 * (0xDEADBEEF0 - D17,343 (28.1 + 3)) + sqrt(1+7)");
    assert_eq!(
        shape(&tree),
        "[+ 0b1001101.100101 [+ [/ 83_382_292x22 [* 0b000101 ([- 0xDEADBEEF0 [* D [* 17,343 ([+ 28.1 3])]]])]] [sqrt ([+ 1 7])]]]"
    );
}

#[test]
fn token_kinds() {
    let mut tree = Ast::new();
    Parser::tokenize("0b11 12 1.5 abs rt x + ! * (a b)", 3, 10, &mut tree).expect("tokenize failed");
    let kinds: Vec<TokenType> = tree.nodes.iter().map(|n| n.token.type_).collect();
    assert_eq!(
        kinds,
        vec![
            TokenType::Bitseq,
            TokenType::Integer,
            TokenType::Decimal,
            TokenType::UnaryFunctionIdentifier,
            TokenType::BinaryFunctionIdentifier,
            TokenType::VariableIdentifier,
            TokenType::AmbiguousOperator,
            TokenType::UnaryOperator,
            TokenType::BinaryOperator,
            TokenType::Expression,
        ]
    );
    let last = tree.last().expect("no token");
    assert_eq!(text(last), "a b");
    assert_eq!(last.token.position.line, 3);
    assert_eq!(last.token.position.chr, 10 + 27);
    assert!(last.subtree.is_none());
}

#[test]
fn tokenizer_errors() {
    assert_eq!(
        parse_error("1 + (2"),
        ("Could not match open parenthesis with closing parenthesis".to_string(), 0, 4)
    );
    assert_eq!(parse_error("1 + 2)"), ("Unexpected closing parenthesis".to_string(), 0, 5));
    assert_eq!(parse_error("1 <> 2"), ("Unknown operator '<>'".to_string(), 0, 2));
    assert_eq!(parse_error("1 # 2"), ("Unknown character '#'".to_string(), 0, 2));
}

#[test]
fn errors_inside_parentheses_keep_their_column() {
    assert_eq!(parse_error("12 * (3 + (4 # 5))"), ("Unknown character '#'".to_string(), 0, 13));
}

#[test]
fn disambiguation_errors() {
    assert_eq!(
        parse_error("1 + !"),
        ("Ambiguous operator '+' cannot precede unary operator '!'".to_string(), 0, 2)
    );
    assert_eq!(
        parse_error("1 +"),
        (
            "Could not disambiguate ambiguous operator '+', consider using parentheses"
                .to_string(),
            0,
            2
        )
    );
    assert_eq!(
        parse_error("1 - * 2"),
        (
            "Could not disambiguate ambiguous operator '-', consider using parentheses"
                .to_string(),
            0,
            2
        )
    );
}

#[test]
fn missing_operand_errors() {
    assert_eq!(
        parse_error("(! 1)"),
        ("Unary operator '!' is missing a left-hand operand".to_string(), 0, 1)
    );
    assert_eq!(
        parse_error("1 ~"),
        ("Unary operator '~' is missing a right-hand operand".to_string(), 0, 2)
    );
    assert_eq!(
        parse_error("(* 2)"),
        ("Binary operator '*' is missing a left-hand operand".to_string(), 0, 1)
    );
    assert_eq!(
        parse_error("2 *"),
        ("Binary operator '*' is missing a right-hand operand".to_string(), 0, 2)
    );
}

#[test]
fn leading_sign_is_binary_at_top_level_and_unary_inside() {
    assert_eq!(shape(&parse("- 3")), "[- ([mem 0]) 3]");
    assert_eq!(shape(&parse("(- 3)")), "([- 3])");
}

#[test]
fn parser_is_left_empty() {
    let mut parser = Parser::new();
    assert!(parser.parse("1 +", 0, 0).is_err());
    assert_eq!(parser.ast.len(), 0);
    let tree = parser.parse("1 + 2", 0, 0).expect("parse failed");
    assert_eq!(shape(&tree), "[+ 1 2]");
    assert_eq!(parser.ast.len(), 0);
}

fn check_arity_and_levels(tree: &Ast) {
    for node in tree.nodes.iter() {
        if let Some(sub) = &node.subtree {
            assert_eq!(sub.level(), tree.level() + 1, "level below {}", text(node));
            if node.token.type_.is_unary() {
                assert_eq!(sub.len(), 1, "operands of {}", text(node));
            }
            if node.token.type_.is_binary() {
                assert_eq!(sub.len(), 2, "operands of {}", text(node));
            }
            check_arity_and_levels(sub);
        } else {
            assert!(node.token.type_.is_terminal(), "{} has no operands", text(node));
        }
    }
}

#[test]
fn every_interior_node_has_its_arity() {
    for input in [
        "",
        "2+3",
        "-x!",
        "* 3",
        "a * / c",
        "sqrt !",
        "3 rt 8",
        "2 (3 + (4)) ! - ~ 0b11 ^ 2 ^ x := 5 && 6",
        "((((1))))",
        "a b c d",
        "- - - 1",
        "x ! ! !",
        "0b1001101.100101 + 83_382_292x22 / 0b000101 * (0xDEADBEEF0 - D17,343 (28.1 + 3)) + sqrt(1+7)",
    ] {
        let mut parser = Parser::new();
        if let Ok(tree) = parser.parse(input, 0, 0) {
            assert_eq!(tree.level(), 0);
            check_arity_and_levels(&tree);
        }
    }
}

#[test]
fn empty_and_blank_inputs_give_empty_trees() {
    assert_eq!(parse("").len(), 0);
    assert_eq!(parse(" \t ").len(), 0);
    let tree = parse("()");
    assert_eq!(tree.len(), 1);
    assert_eq!(tree.nodes[0].token.type_, TokenType::Expression);
    assert_eq!(children(&tree.nodes[0]).len(), 0);
    assert_eq!(children(&tree.nodes[0]).level(), 1);
}

#[test]
fn positions_start_at_the_given_line_and_column() {
    let mut parser = Parser::new();
    let tree = parser.parse("1 + (2 * x)", 7, 30).expect("parse failed");
    let root = &tree.nodes[0];
    assert_eq!((root.token.position.line, root.token.position.chr), (7, 32));
    let group = &children(root).nodes[1];
    assert_eq!(group.token.position.chr, 34);
    let product = &children(group).nodes[0];
    assert_eq!((product.token.position.line, product.token.position.chr), (7, 37));
    assert_eq!(children(product).nodes[1].token.position.chr, 39);
    let e = parser.parse("1 + (2 * #)", 7, 30).err().expect("parsed");
    assert_eq!(e.to_string(), "Unknown character '#' at 7:39");
}

#[test]
fn every_latin_letter_is_an_identifier_character() {
    let mut tree = Ast::new();
    Parser::tokenize("sin pi choose i I Inbase \\inbase", 0, 0, &mut tree).expect("tokenize failed");
    let found: Vec<(TokenType, String, usize)> = tree
        .nodes
        .iter()
        .map(|n| (n.token.type_, text(n), n.token.position.chr))
        .collect();
    assert_eq!(
        found,
        vec![
            (TokenType::UnaryFunctionIdentifier, "sin".to_string(), 0),
            (TokenType::VariableIdentifier, "pi".to_string(), 4),
            (TokenType::BinaryFunctionIdentifier, "choose".to_string(), 7),
            (TokenType::VariableIdentifier, "i".to_string(), 14),
            (TokenType::VariableIdentifier, "I".to_string(), 16),
            (TokenType::VariableIdentifier, "Inbase".to_string(), 18),
            (TokenType::VariableIdentifier, "\\inbase".to_string(), 25),
        ]
    );
    assert_eq!(shape(&parse("sin pi")), "[sin pi]");
    assert_eq!(shape(&parse("2 pi sin x")), "[* 2 [* pi [sin x]]]");
}

#[test]
fn operators_left_without_operands_are_errors() {
    assert_eq!(
        parse_error("a * / c"),
        ("Operator or function '*' is missing its operands".to_string(), 0, 2)
    );
    assert_eq!(
        parse_error("2 * * 3"),
        ("Operator or function '*' is missing its operands".to_string(), 0, 2)
    );
    assert_eq!(
        parse_error("sqrt !"),
        ("Operator or function 'sqrt' is missing its operands".to_string(), 0, 0)
    );
    assert_eq!(
        parse_error("3 rt 8"),
        ("Operator or function 'rt' is missing its operands".to_string(), 0, 2)
    );
    assert_eq!(
        parse_error("1 + (2 choose 3)"),
        ("Operator or function 'choose' is missing its operands".to_string(), 0, 7)
    );
}

/// The contents of the tokens of a tree in the order of writing: a postfix
/// `!` behind its operand, a prefix operator or function before it, a binary
/// operator between its two.
fn in_order_of(node: &AstNode, out: &mut Vec<String>) {
    match &node.subtree {
        Some(sub) if node.token.type_ == TokenType::UnaryOperator && text(node) == "!" => {
            in_order(sub, out);
            out.push(text(node));
        }
        Some(sub)
            if node.token.type_ == TokenType::UnaryOperator
                || node.token.type_ == TokenType::UnaryFunctionIdentifier =>
        {
            out.push(text(node));
            in_order(sub, out);
        }
        Some(sub) if node.token.type_ == TokenType::BinaryOperator => {
            in_order_of(&sub.nodes[0], out);
            out.push(text(node));
            in_order_of(&sub.nodes[1], out);
        }
        _ => out.push(text(node)),
    }
}

fn in_order(tree: &Ast, out: &mut Vec<String>) {
    for node in tree.nodes.iter() {
        in_order_of(node, out);
    }
}

fn flat(tokens: &[(TokenType, &str)]) -> Ast {
    let mut tree = Ast::new();
    for (i, (type_, content)) in tokens.iter().enumerate() {
        tree.push_token(Token::new(*type_, content.chars().collect(), Position::new(0, i)));
    }
    tree
}

#[test]
fn folding_keeps_the_order_of_writing() {
    let sequences: Vec<Vec<(TokenType, &str)>> = vec![
        vec![
            (TokenType::UnaryOperator, "-"),
            (TokenType::Integer, "2"),
            (TokenType::UnaryOperator, "!"),
            (TokenType::BinaryOperator, "*"),
            (TokenType::UnaryFunctionIdentifier, "sqrt"),
            (TokenType::Integer, "3"),
            (TokenType::BinaryOperator, "+"),
            (TokenType::VariableIdentifier, "x"),
            (TokenType::BinaryOperator, "^"),
            (TokenType::Decimal, "4.5"),
        ],
        vec![
            (TokenType::VariableIdentifier, "a"),
            (TokenType::BinaryOperator, ":="),
            (TokenType::Integer, "1"),
            (TokenType::BinaryOperator, "<<"),
            (TokenType::Integer, "2"),
            (TokenType::BinaryOperator, "&&"),
            (TokenType::UnaryOperator, "~"),
            (TokenType::Bitseq, "0b1"),
            (TokenType::BinaryOperator, "/"),
            (TokenType::Integer, "7"),
            (TokenType::BinaryOperator, "%"),
            (TokenType::Integer, "5"),
        ],
        vec![(TokenType::Integer, "1")],
        vec![],
    ];
    for tokens in sequences {
        let mut tree = flat(&tokens);
        Parser::incorporate_operands(&mut tree).expect("not folded");
        let mut read: Vec<String> = Vec::new();
        in_order(&tree, &mut read);
        let written: Vec<String> = tokens.iter().map(|(_, c)| c.to_string()).collect();
        assert_eq!(read, written);
    }
    let mut tree = flat(&[
        (TokenType::UnaryOperator, "-"),
        (TokenType::Integer, "2"),
        (TokenType::UnaryOperator, "!"),
        (TokenType::BinaryOperator, "*"),
        (TokenType::Integer, "3"),
    ]);
    Parser::incorporate_operands(&mut tree).expect("not folded");
    assert_eq!(shape(&tree), "[* [- [! 2]] 3]");
}

#[test]
fn folding_leaves_no_operator_at_the_top_without_operands() {
    let mut tree = flat(&[
        (TokenType::Integer, "1"),
        (TokenType::BinaryOperator, "+"),
        (TokenType::UnaryOperator, "~"),
        (TokenType::Integer, "2"),
        (TokenType::UnaryOperator, "!"),
        (TokenType::BinaryOperator, ":="),
        (TokenType::UnaryFunctionIdentifier, "abs"),
        (TokenType::VariableIdentifier, "x"),
    ]);
    Parser::incorporate_operands(&mut tree).expect("not folded");
    assert_eq!(shape(&tree), "[:= [+ 1 [~ [! 2]]] [abs x]]");
    for node in tree.nodes.iter() {
        match node.token.type_ {
            TokenType::UnaryOperator | TokenType::UnaryFunctionIdentifier => {
                assert_eq!(children(node).nodes.len(), 1)
            }
            TokenType::BinaryOperator => assert_eq!(children(node).nodes.len(), 2),
            _ => {}
        }
    }
    // Below the top an operator can stay without its operand.
    let mut tree = flat(&[
        (TokenType::UnaryFunctionIdentifier, "sqrt"),
        (TokenType::UnaryOperator, "!"),
    ]);
    Parser::incorporate_operands(&mut tree).expect("not folded");
    assert_eq!(shape(&tree), "[! sqrt]");
    assert!(children(&tree.nodes[0]).nodes[0].subtree.is_none());
}

#[test]
fn folding_that_fails_leaves_what_was_folded_so_far() {
    let mut tree = flat(&[
        (TokenType::Integer, "2"),
        (TokenType::UnaryOperator, "!"),
        (TokenType::BinaryOperator, "+"),
        (TokenType::Integer, "3"),
        (TokenType::BinaryOperator, "^"),
        (TokenType::Integer, "4"),
        (TokenType::BinaryOperator, "*"),
    ]);
    let e = Parser::incorporate_operands(&mut tree).err().expect("folded");
    assert_eq!(e.msg, "Binary operator '*' is missing a right-hand operand");
    assert_eq!(e.position.chr, 6);
    assert_eq!(shape(&tree), "[! 2] + [^ 3 4] *");
    let mut tree = flat(&[
        (TokenType::UnaryOperator, "!"),
        (TokenType::Integer, "2"),
        (TokenType::UnaryOperator, "!"),
    ]);
    let e = Parser::incorporate_operands(&mut tree).err().expect("folded");
    assert_eq!(e.msg, "Unary operator '!' is missing a left-hand operand");
    assert_eq!(shape(&tree), "! 2 !");
    let mut tree = flat(&[
        (TokenType::Integer, "2"),
        (TokenType::UnaryOperator, "!"),
        (TokenType::UnaryOperator, "-"),
    ]);
    let e = Parser::incorporate_operands(&mut tree).err().expect("folded");
    assert_eq!(e.msg, "Unary operator '-' is missing a right-hand operand");
    assert_eq!(shape(&tree), "[! 2] -");
}
