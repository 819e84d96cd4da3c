//! The infix renderer: walks an expression tree and renders it as an infix
//! string, inserting only the parentheses that precedence and associativity
//! require; a negation always parenthesizes its operand, and a function
//! renders its arguments separated by commas.

use vstd::prelude::*;
use vstd::string::*;
use crate::ast::{Associativity, Expr, ExprV, Operator};
use crate::lexer::chars_to_string;

verus! {

broadcast use
    vstd::std_specs::vec::axiom_vec_index_decreases,
    vstd::std_specs::vec::axiom_vec_decreases_to_view,
    vstd::seq::axiom_seq_index_decreases,
    vstd::seq::axiom_seq_subrange_decreases,
;

pub open spec fn spec_digit_char(d: int) -> char {
    if d == 0 {
        '0'
    } else if d == 1 {
        '1'
    } else if d == 2 {
        '2'
    } else if d == 3 {
        '3'
    } else if d == 4 {
        '4'
    } else if d == 5 {
        '5'
    } else if d == 6 {
        '6'
    } else if d == 7 {
        '7'
    } else if d == 8 {
        '8'
    } else {
        '9'
    }
}

/// The decimal digits of a non-negative integer.
pub open spec fn spec_nat_chars(n: int) -> Seq<char>
    decreases n,
{
    if n < 10 {
        seq![spec_digit_char(n)]
    } else {
        spec_nat_chars(n / 10).push(spec_digit_char(n % 10))
    }
}

/// The decimal rendering of an integer.
pub open spec fn spec_int_chars(n: int) -> Seq<char> {
    if n < 0 {
        seq!['-'] + spec_nat_chars(-n)
    } else {
        spec_nat_chars(n)
    }
}

fn digit_char(d: u64) -> (c: char)
    requires
        d < 10,
    ensures
        c == spec_digit_char(d as int),
{
    if d == 0 {
        '0'
    } else if d == 1 {
        '1'
    } else if d == 2 {
        '2'
    } else if d == 3 {
        '3'
    } else if d == 4 {
        '4'
    } else if d == 5 {
        '5'
    } else if d == 6 {
        '6'
    } else if d == 7 {
        '7'
    } else if d == 8 {
        '8'
    } else {
        '9'
    }
}

fn nat_chars(m0: u64) -> (r: Vec<char>)
    ensures
        r@ == spec_nat_chars(m0 as int),
{
    let mut acc: Vec<char> = Vec::new();
    let mut m: u64 = m0;
    #[verifier::loop_isolation(false)]
    while m >= 10
        invariant
            spec_nat_chars(m0 as int) == spec_nat_chars(m as int) + acc@,
        decreases m,
    {
        let d = digit_char(m % 10);
        let ghost pre = acc@;
        proof {
            assert(spec_nat_chars(m as int) =~= spec_nat_chars(m as int / 10) + seq![
                spec_digit_char(m as int % 10),
            ]);
        }
        acc.insert(0, d);
        proof {
            assert(acc@ =~= seq![spec_digit_char(m as int % 10)] + pre);
            assert(spec_nat_chars(m as int / 10) + acc@ =~= spec_nat_chars(m0 as int));
        }
        m = m / 10;
    }
    let d = digit_char(m);
    let ghost pre = acc@;
    acc.insert(0, d);
    proof {
        assert(acc@ =~= seq![spec_digit_char(m as int)] + pre);
        assert(spec_nat_chars(m as int) =~= seq![spec_digit_char(m as int)]);
        assert(acc@ =~= spec_nat_chars(m0 as int));
    }
    acc
}

/// The decimal rendering of a number.
pub fn int_to_string(n: i64) -> (r: String)
    ensures
        r@ == spec_int_chars(n as int),
{
    if n >= 0 {
        let v = nat_chars(n as u64);
        chars_to_string(&v)
    } else {
        let mag: u64 = (-(n as i128)) as u64;
        proof {
            assert(mag as int == -(n as int));
        }
        let mut v = nat_chars(mag);
        v.insert(0, '-');
        proof {
            assert(v@ =~= seq!['-'] + spec_nat_chars(mag as int));
        }
        chars_to_string(&v)
    }
}

/// The infix spelling of an operator; internal markers render as `?`.
pub open spec fn spec_op_char(op: Operator) -> char {
    match op {
        Operator::Add => '+',
        Operator::Sub => '-',
        Operator::Mul => '*',
        Operator::Div => '/',
        Operator::Pow => '^',
        Operator::LPa => '(',
        Operator::RPa => ')',
        Operator::Custom(_, _) => '?',
    }
}

fn op_char(op: &Operator) -> (c: char)
    ensures
        c == spec_op_char(*op),
{
    match op {
        Operator::Add => '+',
        Operator::Sub => '-',
        Operator::Mul => '*',
        Operator::Div => '/',
        Operator::Pow => '^',
        Operator::LPa => '(',
        Operator::RPa => ')',
        Operator::Custom(_, _) => '?',
    }
}

/// The precedence a rendered subexpression reports: leaves, functions and
/// identifiers never need parenthesization; negation binds at 4.
pub open spec fn spec_expr_prec(e: ExprV) -> u8 {
    match e {
        ExprV::Operator(op, _, _) => match op.spec_precedence() {
            Some(p) => p,
            None => 0,
        },
        ExprV::Negate(_) => 4u8,
        _ => u8::MAX,
    }
}

/// Whether a tree holds no parenthesis operator node, so that every
/// operator node carries a precedence.
pub open spec fn spec_renderable(e: ExprV) -> bool
    decreases e,
{
    match e {
        ExprV::Operator(op, a, b) => op.spec_precedence() is Some && spec_renderable(*a)
            && spec_renderable(*b),
        ExprV::Negate(a) => spec_renderable(*a),
        ExprV::Function(_, args) => forall|i: int|
            0 <= i < args.len() ==> spec_renderable(#[trigger] args[i]),
        _ => true,
    }
}

/// The infix rendering of a tree. A child of an operator node is
/// parenthesized when its precedence is lower, or equal on the side against
/// the operator's associativity; a negated operand always is.
pub open spec fn spec_render(e: ExprV) -> Seq<char>
    decreases e,
{
    match e {
        ExprV::Number(n) => spec_int_chars(n),
        ExprV::Variable(s) => s,
        ExprV::Identifier(i) => seq!['i', ':'] + spec_nat_chars(i as int),
        ExprV::Negate(a) => seq!['-', '('] + spec_render(*a) + seq![')'],
        ExprV::Function(name, args) => name + seq!['('] + spec_render_args(args) + seq![')'],
        ExprV::Operator(op, a, b) => {
            let c = spec_expr_prec(e);
            let pa = spec_expr_prec(*a);
            let pb = spec_expr_prec(*b);
            let ra = spec_render(*a);
            let rb = spec_render(*b);
            let left = if pa < c || (pa == c && op.spec_associativity() == Some(
                Associativity::Right,
            )) {
                seq!['('] + ra + seq![')']
            } else {
                ra
            };
            let right = if pb < c || (pb == c && op.spec_associativity() == Some(
                Associativity::Left,
            )) {
                seq!['('] + rb + seq![')']
            } else {
                rb
            };
            left + seq![spec_op_char(op)] + right
        },
    }
}

/// The renderings of a function's arguments, separated by commas.
pub open spec fn spec_render_args(args: Seq<ExprV>) -> Seq<char>
    decreases args,
{
    if args.len() == 0 {
        Seq::empty()
    } else if args.len() == 1 {
        spec_render(args[0])
    } else {
        spec_render(args[0]) + seq![','] + spec_render_args(args.drop_first())
    }
}

pub proof fn lemma_render_args_push(s: Seq<ExprV>, x: ExprV)
    ensures
        spec_render_args(s.push(x)) == spec_render_args(s) + (if s.len() == 0 {
            Seq::<char>::empty()
        } else {
            seq![',']
        }) + spec_render(x),
    decreases s,
{
    if s.len() == 0 {
        assert(s.push(x) =~= seq![x]);
        assert(spec_render_args(s.push(x)) =~= spec_render_args(s) + Seq::<char>::empty()
            + spec_render(x));
    } else {
        lemma_render_args_push(s.drop_first(), x);
        assert(s.push(x).drop_first() =~= s.drop_first().push(x));
        assert(s.push(x)[0] == s[0]);
        if s.len() == 1 {
            assert(spec_render_args(s.push(x)) =~= spec_render_args(s) + seq![','] + spec_render(
                x,
            ));
        } else {
            assert(spec_render_args(s.push(x)) =~= spec_render_args(s) + seq![','] + spec_render(
                x,
            ));
        }
    }
}

fn op_str(op: &Operator) -> (r: &'static str)
    ensures
        r@ == seq![spec_op_char(*op)],
{
    match op {
        Operator::Add => {
            proof {
                reveal_strlit("+");
                assert(("+")@ =~= seq!['+']);
            }
            "+"
        },
        Operator::Sub => {
            proof {
                reveal_strlit("-");
                assert(("-")@ =~= seq!['-']);
            }
            "-"
        },
        Operator::Mul => {
            proof {
                reveal_strlit("*");
                assert(("*")@ =~= seq!['*']);
            }
            "*"
        },
        Operator::Div => {
            proof {
                reveal_strlit("/");
                assert(("/")@ =~= seq!['/']);
            }
            "/"
        },
        Operator::Pow => {
            proof {
                reveal_strlit("^");
                assert(("^")@ =~= seq!['^']);
            }
            "^"
        },
        Operator::LPa => {
            proof {
                reveal_strlit("(");
                assert(("(")@ =~= seq!['(']);
            }
            "("
        },
        Operator::RPa => {
            proof {
                reveal_strlit(")");
                assert((")")@ =~= seq![')']);
            }
            ")"
        },
        Operator::Custom(_, _) => {
            proof {
                reveal_strlit("?");
                assert(("?")@ =~= seq!['?']);
            }
            "?"
        },
    }
}

/// Renders a tree to an infix string, also reporting the precedence its
/// top level binds at.
#[verifier::loop_isolation(false)]
pub fn tree_to_infix_recurse(expr: &Expr) -> (r: (String, u8))
    requires
        spec_renderable(expr@),
    ensures
        r.0@ == spec_render(expr@),
        r.1 == spec_expr_prec(expr@),
    decreases expr,
{
    proof {
        reveal_strlit("(");
        reveal_strlit(")");
        reveal_strlit("-(");
        reveal_strlit("i:");
        reveal_strlit(",");
        assert(("(")@ =~= seq!['(']);
        assert((")")@ =~= seq![')']);
        assert(("-(")@ =~= seq!['-', '(']);
        assert(("i:")@ =~= seq!['i', ':']);
        assert((",")@ =~= seq![',']);
    }
    match expr {
        Expr::Number(n) => (int_to_string(*n), u8::MAX),
        Expr::Variable(v) => (v.clone(), u8::MAX),
        Expr::Identifier(i) => {
            let mut out = String::new();
            out.append("i:");
            let digits = chars_to_string(&nat_chars(*i as u64));
            out.append(digits.as_str());
            proof {
                assert(out@ =~= seq!['i', ':'] + spec_nat_chars(*i as int));
            }
            (out, u8::MAX)
        },
        Expr::Negate(a) => {
            let ra = tree_to_infix_recurse(&**a);
            let mut out = String::new();
            out.append("-(");
            out.append(ra.0.as_str());
            out.append(")");
            proof {
                assert(out@ =~= seq!['-', '('] + spec_render(a@) + seq![')']);
            }
            (out, 4)
        },
        Expr::Function(f, args) => {
            let mut out = String::new();
            out.append(f.as_str());
            out.append("(");
            proof {
                let ev = crate::ast::exprs_view(args@);
                assert(spec_renderable(ExprV::Function(f@, ev)));
                assert forall|j: int| 0 <= j < ev.len() implies spec_renderable(
                    #[trigger] ev[j],
                ) by {
                    assert(spec_renderable(ev[j]));
                }
            }
            let mut i: usize = 0;
            while i < args.len()
                invariant
                    0 <= i <= args@.len(),
                    out@ == f@ + seq!['('] + spec_render_args(crate::ast::exprs_view(
                        args@,
                    ).take(i as int)),
                decreases args@.len() - i,
            {
                proof {
                    crate::ast::lemma_exprs_view_index(args@);
                }
                let ghost av = crate::ast::exprs_view(args@);
                if i > 0 {
                    out.append(",");
                }
                proof {
                    assert(args@[i as int]@ == av[i as int]);
                    assert(spec_renderable(av[i as int]));
                }
                let ri = tree_to_infix_recurse(&args[i]);
                out.append(ri.0.as_str());
                proof {
                    lemma_render_args_push(av.take(i as int), av[i as int]);
                    assert(av.take(i as int).push(av[i as int]) =~= av.take(i as int + 1));
                    assert(out@ =~= f@ + seq!['('] + spec_render_args(av.take(i as int + 1)));
                }
                i = i + 1;
            }
            out.append(")");
            proof {
                let av = crate::ast::exprs_view(args@);
                crate::ast::lemma_exprs_view_index(args@);
                assert(av.take(args@.len() as int) =~= av);
                assert(out@ =~= f@ + seq!['('] + spec_render_args(av) + seq![')']);
            }
            (out, u8::MAX)
        },
        Expr::Operator(o, a, b) => {
            let ra = tree_to_infix_recurse(&**a);
            let rb = tree_to_infix_recurse(&**b);
            let c = match o.precedence() {
                Some(p) => p,
                None => {
                    // unreachable: a renderable tree has no parenthesis node
                    proof {
                        assert(false);
                    }
                    0
                },
            };
            let assoc = o.associativity();
            let paren_left = ra.1 < c || (ra.1 == c && matches!(assoc, Some(Associativity::Right)));
            let paren_right = rb.1 < c || (rb.1 == c && matches!(assoc, Some(Associativity::Left)));
            let mut out = String::new();
            if paren_left {
                out.append("(");
                out.append(ra.0.as_str());
                out.append(")");
            } else {
                out.append(ra.0.as_str());
            }
            out.append(op_str(o));
            if paren_right {
                out.append("(");
                out.append(rb.0.as_str());
                out.append(")");
            } else {
                out.append(rb.0.as_str());
            }
            proof {
                let lv = if paren_left {
                    seq!['('] + spec_render(a@) + seq![')']
                } else {
                    spec_render(a@)
                };
                let rv = if paren_right {
                    seq!['('] + spec_render(b@) + seq![')']
                } else {
                    spec_render(b@)
                };
                assert(out@ =~= lv + seq![spec_op_char(*o)] + rv);
            }
            (out, c)
        },
    }
}

/// Renders a tree to an infix string.
pub fn tree_to_infix(expr: &Expr) -> (r: String)
    requires
        spec_renderable(expr@),
    ensures
        r@ == spec_render(expr@),
{
    let (s, _) = tree_to_infix_recurse(expr);
    s
}

} // verus!
