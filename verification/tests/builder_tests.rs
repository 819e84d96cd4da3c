use symexpr::ast::{expr_eq, Expr, Operator, Registry, SymErr, Symbol};
use symexpr::builder::{expr_to_postfix, postfix_to_tree};

#[test]
fn binary_operator_underflow_is_stack_empty() {
    let reg = Registry::new();
    let post = vec![Symbol::Operator(Operator::Add)];
    assert_eq!(postfix_to_tree(&reg, &post).unwrap_err(), SymErr::StackEmpty);
}

#[test]
fn negate_underflow_is_stack_empty() {
    let reg = Registry::new();
    let post = vec![Symbol::Negate];
    assert_eq!(postfix_to_tree(&reg, &post).unwrap_err(), SymErr::StackEmpty);
}

#[test]
fn unknown_function_is_reported() {
    let reg = Registry::new();
    let post = vec![Symbol::Function(String::from("g"))];
    assert_eq!(
        postfix_to_tree(&reg, &post).unwrap_err(),
        SymErr::UnknownFunction
    );
}

#[test]
fn function_operand_underflow_is_reported() {
    let mut reg = Registry::new();
    reg.register(String::from("f"), 2);
    let post = vec![
        Symbol::Variable(String::from("x")),
        Symbol::Function(String::from("f")),
    ];
    assert_eq!(
        postfix_to_tree(&reg, &post).unwrap_err(),
        SymErr::InvalidFunctionArgCount
    );
}

#[test]
fn leftover_operands_are_malformed_postfix() {
    let reg = Registry::new();
    let post = vec![
        Symbol::Variable(String::from("x")),
        Symbol::Variable(String::from("y")),
    ];
    assert_eq!(
        postfix_to_tree(&reg, &post).unwrap_err(),
        SymErr::MalformedPostfix
    );
}

#[test]
fn builds_left_then_right_children() {
    let reg = Registry::new();
    let post = vec![
        Symbol::Variable(String::from("a")),
        Symbol::Variable(String::from("b")),
        Symbol::Operator(Operator::Sub),
    ];
    let tree = postfix_to_tree(&reg, &post).unwrap();
    let expected = Expr::Operator(
        Operator::Sub,
        Box::new(Expr::Variable(String::from("a"))),
        Box::new(Expr::Variable(String::from("b"))),
    );
    assert!(expr_eq(&tree, &expected));
}

#[test]
fn flatten_then_rebuild_is_identity() {
    let mut reg = Registry::new();
    reg.register(String::from("f"), 2);
    let tree = Expr::Function(
        String::from("f"),
        vec![
            Expr::Negate(Box::new(Expr::Variable(String::from("x")))),
            Expr::Operator(
                Operator::Mul,
                Box::new(Expr::Number(2)),
                Box::new(Expr::Variable(String::from("y"))),
            ),
        ],
    );
    let post = expr_to_postfix(&tree).unwrap();
    let rebuilt = postfix_to_tree(&reg, &post).unwrap();
    assert!(expr_eq(&tree, &rebuilt));
}

#[test]
fn placeholder_tree_cannot_flatten() {
    let tree = Expr::Identifier(0);
    assert_eq!(
        expr_to_postfix(&tree).unwrap_err(),
        SymErr::MalformedPostfix
    );
}
