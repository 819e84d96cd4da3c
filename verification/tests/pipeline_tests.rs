use symexpr::ast::{expr_eq, sym_eq, Expr, Operator, Registry, SymErr, Symbol};
use symexpr::pipeline::{parse, parse_and_convert};
use symexpr::render::tree_to_infix;

fn reg_empty() -> Registry {
    Registry::new()
}

fn reg_with(name: &str, arity: u32) -> Registry {
    let mut r = Registry::new();
    r.register(String::from(name), arity);
    r
}

fn syms_equal(a: &[Symbol], b: &[Symbol]) -> bool {
    a.len() == b.len() && a.iter().zip(b.iter()).all(|(x, y)| sym_eq(x, y))
}

#[test]
fn renders_left_associative_chain_without_parens() {
    let reg = reg_empty();
    let tree = parse(&reg, "a-b-c").unwrap();
    assert_eq!(tree_to_infix(&tree), "a-b-c");
}

#[test]
fn renders_kept_parentheses_on_right_subtraction() {
    let reg = reg_empty();
    let tree = parse(&reg, "a-(b-c)").unwrap();
    assert_eq!(tree_to_infix(&tree), "a-(b-c)");
}

#[test]
fn leading_minus_parses_as_negate() {
    let reg = reg_empty();
    let tree = parse(&reg, "-x+3").unwrap();
    let expected = Expr::Operator(
        Operator::Add,
        Box::new(Expr::Negate(Box::new(Expr::Variable(String::from("x"))))),
        Box::new(Expr::Number(3)),
    );
    assert!(expr_eq(&tree, &expected));
}

#[test]
fn multiplication_in_sign_position_is_invalid() {
    let reg = reg_empty();
    assert_eq!(parse(&reg, "*3").unwrap_err(), SymErr::InvalidSign);
}

#[test]
fn implicit_multiplication_matches_explicit() {
    let reg = reg_empty();
    let implicit = parse_and_convert(&reg, "2(x+1)").unwrap();
    let explicit = parse_and_convert(&reg, "2*(x+1)").unwrap();
    assert!(syms_equal(&implicit, &explicit));
}

#[test]
fn mismatched_open_parenthesis_is_reported() {
    let reg = reg_empty();
    assert_eq!(
        parse_and_convert(&reg, "(x+1").unwrap_err(),
        SymErr::ParenthesesMismatch
    );
}

#[test]
fn mismatched_close_parenthesis_is_reported() {
    let reg = reg_empty();
    assert_eq!(
        parse_and_convert(&reg, "x+1)").unwrap_err(),
        SymErr::ParenthesesMismatch
    );
}

#[test]
fn round_trip_keeps_structure_of_mixed_precedence() {
    let reg = reg_empty();
    for text in ["a-b-c", "a-(b-c)", "x+y*z", "(x+y)*(u+v)", "2^x", "x^(y^z)"] {
        let tree = parse(&reg, text).unwrap();
        let rendered = tree_to_infix(&tree);
        let reparsed = parse(&reg, &rendered).unwrap();
        assert!(
            expr_eq(&tree, &reparsed),
            "round trip changed {text}: rendered {rendered}"
        );
    }
}

#[test]
fn power_spelling_and_whitespace_are_normalized() {
    let reg = reg_empty();
    let a = parse(&reg, "2 ** (a - 1)").unwrap();
    let b = parse(&reg, "2^(a-1)").unwrap();
    assert!(expr_eq(&a, &b));
}

#[test]
fn function_call_parses_and_renders_arguments() {
    let reg = reg_with("max", 2);
    let tree = parse(&reg, "max(x,y+1)").unwrap();
    assert_eq!(tree_to_infix(&tree), "max(x,y+1)");
}

#[test]
fn unknown_function_name_is_a_variable() {
    let reg = reg_empty();
    let tree = parse(&reg, "q").unwrap();
    assert!(expr_eq(&tree, &Expr::Variable(String::from("q"))));
}

#[test]
fn negative_numbers_render_with_sign() {
    let tree = Expr::Number(-5);
    assert_eq!(tree_to_infix(&tree), "-5");
    let big = Expr::Number(1234567890);
    assert_eq!(tree_to_infix(&big), "1234567890");
}

#[test]
fn negate_always_parenthesizes_its_operand() {
    let reg = reg_empty();
    let tree = parse(&reg, "-x").unwrap();
    assert_eq!(tree_to_infix(&tree), "-(x)");
}

#[test]
fn leading_zeros_still_parse_as_a_number() {
    let reg = reg_empty();
    let tree = parse(&reg, "007").unwrap();
    assert!(expr_eq(&tree, &Expr::Number(7)));
}

#[test]
fn a_digit_run_too_large_for_the_number_type_is_a_variable() {
    let reg = reg_empty();
    let text = "99999999999999999999";
    let tree = parse(&reg, text).unwrap();
    assert!(expr_eq(&tree, &Expr::Variable(String::from(text))));
}

#[test]
fn power_is_right_associative() {
    let reg = reg_empty();
    let chain = parse(&reg, "x^y^z").unwrap();
    let explicit = parse(&reg, "x^(y^z)").unwrap();
    assert!(expr_eq(&chain, &explicit));
}
