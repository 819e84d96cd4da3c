use symexpr::ast::{expr_eq, Expr, Registry};
use symexpr::pipeline::parse;
use symexpr::render::tree_to_infix;
use symexpr::simplifier::Simplifier;

fn simplify_text(text: &str) -> Expr {
    let reg = Registry::new();
    let simp = Simplifier::new();
    let tree = parse(&reg, text).unwrap();
    simp.simplify(&reg, &tree).unwrap()
}

#[test]
fn additive_identity_is_removed() {
    let reg = Registry::new();
    let expected = parse(&reg, "x").unwrap();
    assert!(expr_eq(&simplify_text("x+0"), &expected));
    assert!(expr_eq(&simplify_text("0+x"), &expected));
}

#[test]
fn multiplication_by_zero_annihilates() {
    let reg = Registry::new();
    let zero = parse(&reg, "0").unwrap();
    assert!(expr_eq(&simplify_text("x*0"), &zero));
    assert!(expr_eq(&simplify_text("0*x"), &zero));
}

#[test]
fn self_multiplication_becomes_square() {
    assert_eq!(tree_to_infix(&simplify_text("x*x")), "x^2");
}

#[test]
fn self_division_becomes_one() {
    let reg = Registry::new();
    let one = parse(&reg, "1").unwrap();
    assert!(expr_eq(&simplify_text("x/x"), &one));
}

#[test]
fn self_addition_becomes_doubling() {
    assert_eq!(tree_to_infix(&simplify_text("x+x")), "2*x");
}

#[test]
fn division_becomes_negative_power_product() {
    assert_eq!(tree_to_infix(&simplify_text("x/y")), "x*y^-1");
}

#[test]
fn simplifying_a_fixed_point_changes_nothing() {
    let reg = Registry::new();
    let simp = Simplifier::new();
    for text in ["x+1", "y*z", "a^b", "-(q)+3"] {
        let tree = parse(&reg, text).unwrap();
        let simplified = simp.simplify(&reg, &tree).unwrap();
        assert!(
            expr_eq(&tree, &simplified),
            "already-simplified {text} changed"
        );
    }
}

#[test]
fn simplifying_twice_gives_the_same_tree() {
    let reg = Registry::new();
    let simp = Simplifier::new();
    for text in ["x+0+0", "x*x+x*x", "a/b+c/c", "x+x*y"] {
        let tree = parse(&reg, text).unwrap();
        let once = simp.simplify(&reg, &tree).unwrap();
        let twice = simp.simplify(&reg, &once).unwrap();
        assert!(expr_eq(&once, &twice), "second pass changed {text}");
    }
}

#[test]
fn additive_factoring_applies() {
    assert_eq!(tree_to_infix(&simplify_text("x+x*y")), "x*(1+y)");
}
