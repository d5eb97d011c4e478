use tcalc::ast::{Ast, AstNode};
use tcalc::evaluator::{is_evaluable, ErrorKind, EvalError, Evaluator};
use tcalc::integers::Integer;
use tcalc::parser::Parser;
use tcalc::position::Position;
use tcalc::tokens::{Token, TokenType};
use tcalc::values::{Value, ValueType};

fn parse(input: &str) -> Ast {
    let mut parser = Parser::new();
    parser.parse(input, 0, 0).expect("parse failed")
}

fn run(evaluator: &mut Evaluator, input: &str) -> Result<Value, EvalError> {
    let mut tree = parse(input);
    assert!(is_evaluable(&tree), "tree of {} cannot be evaluated", input);
    evaluator.evaluate(&mut tree)?;
    Ok(tree.nodes.last().expect("empty tree").value.expect("no value"))
}

fn result(input: &str) -> String {
    let mut evaluator = Evaluator::new();
    match run(&mut evaluator, input) {
        Ok(v) => v.render(),
        Err(e) => panic!("{} failed: {}", input, e.msg),
    }
}

fn failure(input: &str) -> (ErrorKind, String, usize) {
    let mut evaluator = Evaluator::new();
    match run(&mut evaluator, input) {
        Ok(v) => panic!("{} gave {}", input, v.render()),
        Err(e) => (e.kind, e.msg.clone(), e.position.chr),
    }
}

fn leaf(type_: TokenType, text: &str) -> AstNode {
    AstNode::new_from_token(Token::new(type_, text.chars().collect(), Position::new(0, 0)))
}

fn above(type_: TokenType, text: &str, operands: Vec<AstNode>) -> AstNode {
    let mut sub = Ast::new();
    for operand in operands {
        sub.push(operand);
    }
    let mut node = leaf(type_, text);
    node.set_subtree(sub);
    node
}

fn evaluated(node: AstNode) -> Result<Value, EvalError> {
    let mut evaluator = Evaluator::new();
    let mut node = node;
    evaluator.evaluate_node(&mut node)?;
    Ok(node.value.expect("no value"))
}

#[test]
fn two_plus_three_is_five() {
    let mut tree = parse("2+3");
    let mut evaluator = Evaluator::new();
    evaluator.evaluate(&mut tree).ok().expect("evaluation failed");
    let root = &tree.nodes[0];
    let v = root.value.expect("no value");
    assert_eq!(v.type_(), ValueType::Integer);
    assert_eq!(v.render(), "5");
    let operands = root.subtree.as_ref().expect("no operands");
    assert_eq!(operands.nodes[0].value.expect("no value").render(), "2");
    assert_eq!(operands.nodes[1].value.expect("no value").render(), "3");
}

#[test]
fn adjacent_numerals_multiply_to_six() {
    let mut evaluator = Evaluator::new();
    let v = run(&mut evaluator, "2 3").ok().expect("evaluation failed");
    assert_eq!(v.type_(), ValueType::Integer);
    assert_eq!(v.render(), "6");
}

#[test]
fn undefined_variable_is_reported_at_its_place() {
    let (kind, msg, chr) = failure("-x!");
    assert_eq!(kind, ErrorKind::Syntax);
    assert_eq!(msg, "The variable \"x\" is undefined");
    assert_eq!(chr, 1);
    let (kind, msg, chr) = failure("(2 + (3 * yy))");
    assert_eq!(kind, ErrorKind::Syntax);
    assert_eq!(msg, "The variable \"yy\" is undefined");
    assert_eq!(chr, 10);
}

#[test]
fn factorial_through_the_evaluator() {
    assert_eq!(result("5!"), "120");
    let (kind, msg, chr) = failure("100!");
    assert_eq!(kind, ErrorKind::InvalidOperation);
    assert_eq!(
        msg,
        "Factorial of value > 97 exceeds size of Integer type, consider approximating the factorial via `gamma (x + 1)`"
    );
    assert_eq!(chr, 3);
    assert_eq!(result("3! !"), "720");
}

#[test]
fn bitwise_negation_through_the_evaluator() {
    assert_eq!(result("(~0b101)"), "0b010");
    let (kind, _, chr) = failure("(~ 2.5)");
    assert_eq!(kind, ErrorKind::Conversion);
    assert_eq!(chr, 1);
}

#[test]
fn precedence_and_grouping() {
    assert_eq!(result("2 + 3 * 4"), "14");
    assert_eq!(result("(2 + 3) * 4"), "20");
    assert_eq!(result("2 ^ 3 ^ 2"), "512");
    assert_eq!(result("100 / 5 / 2"), "50");
    assert_eq!(result("10 - 4 - 3"), "9");
    assert_eq!(result("7 % 4"), "3");
    assert_eq!(result("2 (3 + 4)"), "14");
    assert_eq!(result("(- 3) * 2"), "-6");
    assert_eq!(result("1.5 + 1"), "2.5");
    assert_eq!(result("0b11 + 1"), "4");
}

#[test]
fn comparisons_and_logic() {
    assert_eq!(result("2 < 3"), "1");
    assert_eq!(result("2 > 3"), "0");
    assert_eq!(result("3 <= 3"), "1");
    assert_eq!(result("3 >= 4"), "0");
    assert_eq!(result("3 == 3.0"), "1");
    assert_eq!(result("3 != 3"), "0");
    assert_eq!(result("2 <=> 3"), "-1");
    assert_eq!(result("3 <=> 3"), "0");
    assert_eq!(result("4 <=> 3"), "1");
    assert_eq!(result("1 && 0"), "0");
    assert_eq!(result("1 && 2"), "1");
    assert_eq!(result("0 || 0"), "0");
    assert_eq!(result("0 || 0.5"), "1");
    assert_eq!(result("(¬ 0)"), "1");
    assert_eq!(result("(¬ 0b10)"), "0");
}

#[test]
fn variables_are_looked_up_whatever_their_case() {
    let mut evaluator = Evaluator::new();
    evaluator.environment.variables.set("foo", Value::from_integer(Integer::from_u64(0)));
    evaluator.environment.variables.set("D", Value::from_integer(Integer::from_u64(1)));
    assert_eq!(run(&mut evaluator, "D + 1").ok().expect("failed").render(), "2");
    assert_eq!(run(&mut evaluator, "foo").ok().expect("failed").render(), "0");
    assert_eq!(run(&mut evaluator, "FOO + d").ok().expect("failed").render(), "1");
    assert!(result("PI").starts_with("3.14159"));
    assert!(result("tau / 2").starts_with("3.14159"));
    let e = run(&mut Evaluator::new(), "foo").err().expect("bound");
    assert_eq!(e.msg, "The variable \"foo\" is undefined");
}

#[test]
fn assignment_binds_a_variable() {
    let mut evaluator = Evaluator::new();
    assert_eq!(run(&mut evaluator, "x := 2 + 3").ok().expect("failed").render(), "5");
    assert_eq!(run(&mut evaluator, "x * X").ok().expect("failed").render(), "25");
    assert_eq!(run(&mut evaluator, "x := x + 1").ok().expect("failed").render(), "6");
    assert_eq!(evaluator.environment.variables.get("x").expect("unbound").render(), "6");
    let e = run(&mut evaluator, "e := 3").err().expect("assigned");
    assert_eq!(e.kind, ErrorKind::InvalidOperation);
    assert_eq!(e.msg, "The variable \"e\" is readonly");
    assert_eq!(e.position.chr, 2);
    let e = run(&mut evaluator, "3 := 4").err().expect("assigned");
    assert_eq!(e.kind, ErrorKind::Syntax);
    assert_eq!(e.msg, "The left-hand side of \":=\" must be a variable");
}

#[test]
fn previous_result_is_recalled() {
    let mut evaluator = Evaluator::new();
    assert_eq!(run(&mut evaluator, "* 3").ok().expect("failed").render(), "0");
    evaluator.environment.remember(Value::from_integer(Integer::from_u64(7)));
    assert_eq!(run(&mut evaluator, "* 3").ok().expect("failed").render(), "21");
    assert_eq!(run(&mut evaluator, "- 2").ok().expect("failed").render(), "5");
    evaluator.environment.remember(Value::from_integer(Integer::from_u64(9)));
    assert_eq!(run(&mut evaluator, "mem 0 + mem 1 + mem 2").ok().expect("failed").render(), "16");
    let e = run(&mut evaluator, "mem 0.5").err().expect("recalled");
    assert_eq!(e.kind, ErrorKind::InvalidOperation);
    assert_eq!(e.msg, "The memory slot must be a non-negative integer");
}

#[test]
fn unknown_spellings_are_undefined() {
    let (kind, msg, chr) = failure("2 <<< 3");
    assert_eq!(kind, ErrorKind::Syntax);
    assert_eq!(msg, "The operator \"<<<\" is undefined");
    assert_eq!(chr, 2);
    let (kind, msg, _) = failure("2 ?? 3");
    assert_eq!(kind, ErrorKind::Syntax);
    assert_eq!(msg, "The operator \"??\" is undefined");
    assert_eq!(result("sin 0"), "0.0");
    assert!(result("sin 30").starts_with("0.5") || result("sin 30").starts_with("0.4999999"));
    assert_eq!(result("abs (0 - 5)"), "5");
    assert_eq!(result("not 0"), "1");
    let (kind, msg, _) = failure("sqrt 4");
    assert_eq!(kind, ErrorKind::Syntax);
    assert_eq!(msg, "The function \"sqrt\" is undefined");
    let (kind, msg, _) = failure("()");
    assert_eq!(kind, ErrorKind::Syntax);
    assert_eq!(msg, "The expression in parentheses does not reduce to a single value");
}

#[test]
fn numeral_errors_carry_the_position() {
    let (kind, msg, chr) = failure("1 + 83_382_292x22");
    assert_eq!(kind, ErrorKind::Syntax);
    assert_eq!(msg, "The pattern of the numeral string \"83_382_292x22\" is invalid");
    assert_eq!(chr, 4);
}

#[test]
fn builtin_functions_on_hand_built_nodes() {
    let five = leaf(TokenType::Integer, "5");
    let minus = above(TokenType::UnaryOperator, "-", vec![five]);
    let abs = above(TokenType::UnaryFunctionIdentifier, "abs", vec![minus]);
    assert_eq!(evaluated(abs).ok().expect("failed").render(), "5");
    let zero = leaf(TokenType::Integer, "0");
    let not = above(TokenType::UnaryFunctionIdentifier, "not", vec![zero]);
    assert_eq!(evaluated(not).ok().expect("failed").render(), "1");
    let angle = leaf(TokenType::Integer, "0");
    let sin = above(TokenType::UnaryFunctionIdentifier, "sin", vec![angle]);
    assert_eq!(evaluated(sin).ok().expect("failed").render(), "0.0");
    let pi = leaf(TokenType::VariableIdentifier, "pi");
    assert!(evaluated(pi).ok().expect("failed").render().starts_with("3.14159"));
    let choose = above(
        TokenType::BinaryFunctionIdentifier,
        "choose",
        vec![leaf(TokenType::Integer, "5"), leaf(TokenType::Integer, "2")],
    );
    let e = evaluated(choose).err().expect("evaluated");
    assert_eq!(e.msg, "The function \"choose\" is undefined");
}

#[test]
fn evaluating_twice_changes_nothing() {
    let mut evaluator = Evaluator::new();
    let mut tree = parse("x := 2 + 3 * 4");
    evaluator.evaluate(&mut tree).ok().expect("evaluation failed");
    assert_eq!(tree.nodes[0].value.expect("no value").render(), "14");
    evaluator.environment.variables.set("x", Value::from_integer(Integer::from_u64(1)));
    evaluator.evaluate(&mut tree).ok().expect("evaluation failed");
    assert_eq!(tree.nodes[0].value.expect("no value").render(), "14");
    assert_eq!(evaluator.environment.variables.get("x").expect("unbound").render(), "1");
    let operands = tree.nodes[0].subtree.as_ref().expect("no operands");
    assert_eq!(operands.nodes[1].value.expect("no value").render(), "14");
}

#[test]
fn parsed_trees_can_be_evaluated_and_flat_ones_cannot() {
    for input in ["", "2 + 3", "-x!", "* 3", "()", "((1)) 2", "sin pi + mem 0", "x := y := 3"] {
        assert!(is_evaluable(&parse(input)), "tree of {}", input);
    }
    let mut flat = Ast::new();
    Parser::tokenize("(1)", 0, 0, &mut flat).ok().expect("tokenize failed");
    assert!(!is_evaluable(&flat));
    let mut flat = Ast::new();
    Parser::tokenize("1 + 2", 0, 0, &mut flat).ok().expect("tokenize failed");
    assert!(!is_evaluable(&flat));
}

#[test]
fn flat_pass_values_numerals() {
    let mut flat = Ast::new();
    Parser::tokenize("12 + 0b01 * x 1.50", 0, 0, &mut flat).ok().expect("tokenize failed");
    Evaluator::evaluate_numerals(&mut flat).ok().expect("numerals failed");
    let texts: Vec<Option<String>> =
        flat.nodes.iter().map(|n| n.value.map(|v| v.render())).collect();
    assert_eq!(
        texts,
        vec![
            Some("12".to_string()),
            None,
            Some("0b01".to_string()),
            None,
            None,
            Some("1.5".to_string())
        ]
    );
    let mut bad = Ast::new();
    Parser::tokenize("1 2x2 3", 2, 5, &mut bad).ok().expect("tokenize failed");
    let e = Evaluator::evaluate_numerals(&mut bad).err().expect("numerals passed");
    assert_eq!(e.msg, "The pattern of the numeral string \"2x2\" is invalid");
    assert_eq!(e.position.line, 2);
    assert_eq!(e.position.chr, 7);
    assert_eq!(bad.nodes[0].value.expect("no value").render(), "1");
    assert!(bad.nodes[2].value.is_none());
}

#[test]
fn flat_pass_values_variables_but_not_assigned_ones() {
    let mut evaluator = Evaluator::new();
    evaluator.environment.variables.set("y", Value::from_integer(Integer::from_u64(7)));
    let mut flat = Ast::new();
    evaluator.environment.variables.set("foo", Value::from_integer(Integer::from_u64(0)));
    Parser::tokenize("x := Y + foo", 0, 0, &mut flat).ok().expect("tokenize failed");
    evaluator.evaluate_variables(&mut flat).ok().expect("variables failed");
    assert!(flat.nodes[0].value.is_none());
    assert_eq!(flat.nodes[2].value.expect("no value").render(), "7");
    assert_eq!(flat.nodes[4].value.expect("no value").render(), "0");
    let mut unbound = Ast::new();
    Parser::tokenize("y + zz", 0, 0, &mut unbound).ok().expect("tokenize failed");
    let e = evaluator.evaluate_variables(&mut unbound).err().expect("variables passed");
    assert_eq!(e.msg, "The variable identifier \"zz\" is undefined");
    assert_eq!(e.position.chr, 4);
    assert_eq!(unbound.nodes[0].value.expect("no value").render(), "7");
    assert!(unbound.nodes[1].value.is_none());
    assert!(unbound.nodes[2].value.is_none());
}

#[test]
fn top_level_bitwise_negation() {
    assert_eq!(result("~0b101"), "0b010");
    assert_eq!(result("~ 5"), "0b010");
}

#[test]
fn bitwise_operators_and_shifts() {
    assert_eq!(result("0b1100 & 0b1010"), "0b1000");
    assert_eq!(result("0b1100 | 0b1010"), "0b1110");
    assert_eq!(result("0b1100 ^| 0b1010"), "0b0110");
    assert_eq!(result("0b0011 & 0b1"), "0b0001");
    assert_eq!(result("0b1 | 0b100"), "0b101");
    assert_eq!(result("6 & 3"), "0b010");
    assert_eq!(result("0b0011 << 2"), "0b1100");
    assert_eq!(result("0b0011 << 3"), "0b1000");
    assert_eq!(result("0b0011 << 4"), "0b0000");
    assert_eq!(result("0b0011 << 1000"), "0b0000");
    assert_eq!(result("0b1100 >> 2"), "0b0011");
    assert_eq!(result("0b1100 >> 3"), "0b0001");
    assert_eq!(result("0b1100 >> 4"), "0b0000");
    assert_eq!(result("0b1100 >> 0"), "0b1100");
    assert_eq!(result("0b0001 << 3 | 0b1"), "0b1001");
    let (kind, msg, _) = failure("0b1 << 0.5");
    assert_eq!(kind, ErrorKind::InvalidOperation);
    assert_eq!(msg, "The shift amount must be a non-negative integer");
    let (kind, msg, _) = failure("0b1 << (0 - 1)");
    assert_eq!(kind, ErrorKind::InvalidOperation);
    assert_eq!(msg, "The shift amount must be a non-negative integer");
    let (kind, _, _) = failure("1.5 & 0b1");
    assert_eq!(kind, ErrorKind::Conversion);
}

#[test]
fn failed_evaluation_leaves_no_value_above_the_failure() {
    let mut evaluator = Evaluator::new();
    let mut tree = parse("(-x!)");
    assert!(evaluator.evaluate(&mut tree).is_err());
    let group = &tree.nodes[0];
    assert!(group.value.is_none());
    let minus = &group.subtree.as_ref().expect("no subtree").nodes[0];
    assert!(minus.value.is_none());
    let factorial = &minus.subtree.as_ref().expect("no subtree").nodes[0];
    assert!(factorial.value.is_none());
    let x = &factorial.subtree.as_ref().expect("no subtree").nodes[0];
    assert!(x.value.is_none());
    assert!(evaluator.environment.variables.get("x").is_none());

    let mut tree = parse("100!");
    assert!(evaluator.evaluate(&mut tree).is_err());
    assert!(tree.nodes[0].value.is_none());
    let operand = &tree.nodes[0].subtree.as_ref().expect("no subtree").nodes[0];
    assert_eq!(operand.value.expect("no value").render(), "100");

    let mut tree = parse("(y := 2) + (z := 3) + zz + (w := 4)");
    assert!(evaluator.evaluate(&mut tree).is_err());
    assert_eq!(evaluator.environment.variables.get("y").expect("unbound").render(), "2");
    assert_eq!(evaluator.environment.variables.get("z").expect("unbound").render(), "3");
    assert!(evaluator.environment.variables.get("w").is_none());
    assert!(tree.nodes[0].value.is_none());
}

#[test]
fn sine_of_negative_angles() {
    for (angle, expected) in [("0 - 450", "-1"), ("0 - 90", "-1"), ("0 - 810", "-1"), ("450", "1"), ("0 - 1170", "-1")] {
        let text = result(&format!("sin ({})", angle));
        assert!(
            text.starts_with(&format!("{}.0", expected)) || text.starts_with(&format!("{}0.99999999", expected.trim_end_matches('1'))),
            "sin({}) = {}",
            angle,
            text
        );
    }
    let half = result("sin (0 - 750)");
    assert!(half.starts_with("-0.5") || half.starts_with("-0.4999999"), "sin(-750) = {}", half);
}
