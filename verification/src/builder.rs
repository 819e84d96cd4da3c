//! The tree builder: reduces a postfix symbol sequence to an expression
//! tree with an explicit operand stack. Binary operators take the two top
//! operands (the deeper one as left child), negation takes one, and a
//! function takes as many as the registry gives for its name, in stack
//! order as its left-to-right children.

use vstd::prelude::*;
use crate::ast::{
    Expr, ExprV, Registry, SymErr, Symbol, SymbolV, exprs_view, lemma_exprs_view_index,
    spec_arity_of,
};
use crate::lexer::syms_view;

verus! {

broadcast use
    vstd::std_specs::vec::axiom_vec_index_decreases,
    vstd::std_specs::vec::axiom_vec_decreases_to_view,
    vstd::seq::axiom_seq_index_decreases,
    vstd::seq::axiom_seq_subrange_decreases,
;

/// The views of a list of trees.
pub open spec fn trees_view(v: Seq<Expr>) -> Seq<ExprV> {
    v.map_values(|e: Expr| e@)
}

pub proof fn lemma_exprs_view_is_map(s: Seq<Expr>)
    ensures
        exprs_view(s) == trees_view(s),
{
    lemma_exprs_view_index(s);
    assert(exprs_view(s) =~= trees_view(s));
}

/// One reduction step of the tree builder on the operand stack.
pub open spec fn spec_build_step(
    stack: Seq<ExprV>,
    sv: SymbolV,
    reg: Seq<(Seq<char>, u32)>,
) -> Result<Seq<ExprV>, SymErr> {
    match sv {
        SymbolV::Number(n) => Ok(stack.push(ExprV::Number(n))),
        SymbolV::Variable(s) => Ok(stack.push(ExprV::Variable(s))),
        SymbolV::Operator(op) => {
            if stack.len() < 2 {
                Err(SymErr::StackEmpty)
            } else {
                Ok(
                    stack.take(stack.len() - 2).push(
                        ExprV::Operator(
                            op,
                            Box::new(stack[stack.len() - 2]),
                            Box::new(stack[stack.len() - 1]),
                        ),
                    ),
                )
            }
        },
        SymbolV::Negate => {
            if stack.len() < 1 {
                Err(SymErr::StackEmpty)
            } else {
                Ok(stack.drop_last().push(ExprV::Negate(Box::new(stack.last()))))
            }
        },
        SymbolV::Function(name) => {
            match spec_arity_of(reg, name) {
                None => Err(SymErr::UnknownFunction),
                Some(argc) => {
                    if stack.len() < argc {
                        Err(SymErr::InvalidFunctionArgCount)
                    } else {
                        Ok(
                            stack.take(stack.len() - argc).push(
                                ExprV::Function(name, stack.skip(stack.len() - argc)),
                            ),
                        )
                    }
                },
            }
        },
    }
}

/// Folding the reduction over the symbols from position `i` on.
pub open spec fn spec_build_run(
    syms: Seq<SymbolV>,
    reg: Seq<(Seq<char>, u32)>,
    i: int,
    stack: Seq<ExprV>,
) -> Result<Seq<ExprV>, SymErr>
    decreases syms.len() - i,
{
    if i < 0 || i >= syms.len() {
        Ok(stack)
    } else {
        match spec_build_step(stack, syms[i], reg) {
            Err(e) => Err(e),
            Ok(stack1) => spec_build_run(syms, reg, i + 1, stack1),
        }
    }
}

/// The tree of a postfix sequence: after full reduction exactly one
/// operand must remain; more or none is an internal malformation, not bad
/// user input.
pub open spec fn spec_postfix_to_tree(
    syms: Seq<SymbolV>,
    reg: Seq<(Seq<char>, u32)>,
) -> Result<ExprV, SymErr> {
    match spec_build_run(syms, reg, 0, Seq::empty()) {
        Err(e) => Err(e),
        Ok(stack) => if stack.len() == 1 {
            Ok(stack[0])
        } else {
            Err(SymErr::MalformedPostfix)
        },
    }
}

/// The postfix sequence of a tree: children first, then the node's own
/// symbol. `None` for a tree holding a pattern placeholder, which no
/// symbol can carry.
pub open spec fn spec_flatten(e: ExprV) -> Option<Seq<SymbolV>>
    decreases e,
{
    match e {
        ExprV::Number(n) => Some(seq![SymbolV::Number(n)]),
        ExprV::Variable(s) => Some(seq![SymbolV::Variable(s)]),
        ExprV::Identifier(_) => None,
        ExprV::Operator(op, a, b) => match (spec_flatten(*a), spec_flatten(*b)) {
            (Some(fa), Some(fb)) => Some(fa + fb + seq![SymbolV::Operator(op)]),
            _ => None,
        },
        ExprV::Negate(a) => match spec_flatten(*a) {
            Some(fa) => Some(fa.push(SymbolV::Negate)),
            None => None,
        },
        ExprV::Function(name, args) => match spec_flatten_args(args) {
            Some(fs) => Some(fs.push(SymbolV::Function(name))),
            None => None,
        },
    }
}

pub open spec fn spec_flatten_args(args: Seq<ExprV>) -> Option<Seq<SymbolV>>
    decreases args,
{
    if args.len() == 0 {
        Some(Seq::empty())
    } else {
        match (spec_flatten(args[0]), spec_flatten_args(args.drop_first())) {
            (Some(f), Some(rest)) => Some(f + rest),
            _ => None,
        }
    }
}

pub proof fn lemma_flatten_args_push(s: Seq<ExprV>, x: ExprV)
    ensures
        spec_flatten_args(s.push(x)) == match (spec_flatten_args(s), spec_flatten(x)) {
            (Some(fs), Some(fx)) => Some(fs + fx),
            _ => None::<Seq<SymbolV>>,
        },
    decreases s,
{
    if s.len() == 0 {
        assert(s.push(x).drop_first() =~= Seq::<ExprV>::empty());
        assert(s.push(x)[0] == x);
        assert(spec_flatten_args(s) == Some(Seq::<SymbolV>::empty()));
        assert(spec_flatten_args(Seq::<ExprV>::empty()) == Some(Seq::<SymbolV>::empty()));
        if spec_flatten(x) is Some {
            assert(spec_flatten_args(s.push(x)) == Some(
                spec_flatten(x).unwrap() + Seq::<SymbolV>::empty(),
            ));
            assert(spec_flatten(x).unwrap() + Seq::<SymbolV>::empty() =~= spec_flatten(
                x,
            ).unwrap());
            assert(Seq::<SymbolV>::empty() + spec_flatten(x).unwrap() =~= spec_flatten(
                x,
            ).unwrap());
        }
    } else {
        lemma_flatten_args_push(s.drop_first(), x);
        assert(s.push(x).drop_first() =~= s.drop_first().push(x));
        assert(s.push(x)[0] == s[0]);
        if spec_flatten(s[0]) is Some && spec_flatten_args(s.drop_first()) is Some
            && spec_flatten(x) is Some {
            let f0 = spec_flatten(s[0]).unwrap();
            let fr = spec_flatten_args(s.drop_first()).unwrap();
            let fx = spec_flatten(x).unwrap();
            assert(spec_flatten_args(s.drop_first().push(x)) == Some(fr + fx));
            assert(spec_flatten_args(s.push(x)) == Some(f0 + (fr + fx)));
            assert(spec_flatten_args(s) == Some(f0 + fr));
            assert(f0 + (fr + fx) =~= (f0 + fr) + fx);
        }
    }
}

/// Flattens a tree to its postfix symbol sequence.
#[verifier::loop_isolation(false)]
pub fn expr_to_postfix(expr: &Expr) -> (r: Result<Vec<Symbol>, SymErr>)
    ensures
        match r {
            Ok(v) => spec_flatten(expr@) == Some(syms_view(v@)),
            Err(e) => spec_flatten(expr@) is None && e == SymErr::MalformedPostfix,
        },
    decreases expr,
{
    match expr {
        Expr::Number(n) => {
            let mut out: Vec<Symbol> = Vec::new();
            out.push(Symbol::Number(*n));
            proof {
                assert(syms_view(out@) =~= seq![SymbolV::Number(*n as int)]);
            }
            Ok(out)
        },
        Expr::Variable(s) => {
            let mut out: Vec<Symbol> = Vec::new();
            out.push(Symbol::Variable(s.clone()));
            proof {
                assert(syms_view(out@) =~= seq![SymbolV::Variable(s@)]);
            }
            Ok(out)
        },
        Expr::Identifier(_) => Err(SymErr::MalformedPostfix),
        Expr::Operator(o, a, b) => {
            let mut fa = match expr_to_postfix(&**a) {
                Ok(v) => v,
                Err(e) => {
                    return Err(e);
                },
            };
            let mut fb = match expr_to_postfix(&**b) {
                Ok(v) => v,
                Err(e) => {
                    return Err(e);
                },
            };
            let ghost fav = syms_view(fa@);
            let ghost fbv = syms_view(fb@);
            fa.append(&mut fb);
            proof {
                assert(syms_view(fa@) =~= fav + fbv);
            }
            let ghost fv = syms_view(fa@);
            fa.push(Symbol::Operator(*o));
            proof {
                assert(syms_view(fa@) =~= fv.push(SymbolV::Operator(*o)));
                assert((fav + fbv).push(SymbolV::Operator(*o)) =~= fav + fbv + seq![
                    SymbolV::Operator(*o),
                ]);
            }
            Ok(fa)
        },
        Expr::Negate(a) => {
            let mut fa = match expr_to_postfix(&**a) {
                Ok(v) => v,
                Err(e) => {
                    return Err(e);
                },
            };
            let ghost fav = syms_view(fa@);
            fa.push(Symbol::Negate);
            proof {
                assert(syms_view(fa@) =~= fav.push(SymbolV::Negate));
            }
            Ok(fa)
        },
        Expr::Function(s, args) => {
            let ghost av = exprs_view(args@);
            proof {
                lemma_exprs_view_index(args@);
            }
            let mut out: Vec<Symbol> = Vec::new();
            let mut i: usize = 0;
            proof {
                assert(av.take(0) =~= Seq::<ExprV>::empty());
                assert(syms_view(out@) =~= Seq::<SymbolV>::empty());
            }
            while i < args.len()
                invariant
                    0 <= i <= args@.len(),
                    spec_flatten_args(av.take(i as int)) == Some(syms_view(out@)),
                decreases args@.len() - i,
            {
                let mut fi = match expr_to_postfix(&args[i]) {
                    Ok(v) => v,
                    Err(e) => {
                        proof {
                            lemma_flatten_args_push(av.take(i as int), av[i as int]);
                            assert(av.take(i as int).push(av[i as int]) =~= av.take(i as int + 1));
                            lemma_flatten_args_none(av, i as int + 1, av.len() as int);
                        }
                        return Err(e);
                    },
                };
                let ghost pre = syms_view(out@);
                let ghost fiv = syms_view(fi@);
                out.append(&mut fi);
                proof {
                    assert(syms_view(out@) =~= pre + fiv);
                    lemma_flatten_args_push(av.take(i as int), av[i as int]);
                    assert(av.take(i as int).push(av[i as int]) =~= av.take(i as int + 1));
                }
                i = i + 1;
            }
            proof {
                assert(av.take(av.len() as int) =~= av);
            }
            let ghost pre = syms_view(out@);
            out.push(Symbol::Function(s.clone()));
            proof {
                assert(syms_view(out@) =~= pre.push(SymbolV::Function(s@)));
            }
            Ok(out)
        },
    }
}

/// A prefix that cannot flatten keeps the whole argument list from
/// flattening.
pub proof fn lemma_flatten_args_none(av: Seq<ExprV>, i: int, n: int)
    requires
        0 <= i <= n == av.len(),
        spec_flatten_args(av.take(i)) is None,
    ensures
        spec_flatten_args(av) is None,
    decreases n - i,
{
    if i == n {
        assert(av.take(i) =~= av);
    } else {
        lemma_flatten_args_push(av.take(i), av[i]);
        assert(av.take(i).push(av[i]) =~= av.take(i + 1));
        lemma_flatten_args_none(av, i + 1, n);
    }
}

/// Builds the expression tree of a postfix symbol sequence.
#[verifier::loop_isolation(false)]
pub fn postfix_to_tree(reg: &Registry, postfix: &Vec<Symbol>) -> (r: Result<Expr, SymErr>)
    ensures
        match (r, spec_postfix_to_tree(syms_view(postfix@), reg@)) {
            (Ok(t), Ok(m)) => t@ == m,
            (Err(e), Err(m)) => e == m,
            _ => false,
        },
{
    let ghost syms = syms_view(postfix@);
    let mut stack: Vec<Expr> = Vec::new();
    let mut i: usize = 0;
    proof {
        assert(trees_view(stack@) =~= Seq::<ExprV>::empty());
    }
    while i < postfix.len()
        invariant
            0 <= i <= postfix@.len(),
            syms.len() == postfix@.len(),
            forall|j: int| 0 <= j < syms.len() ==> syms[j] == postfix@[j]@,
            spec_build_run(syms, reg@, 0, Seq::empty()) == spec_build_run(
                syms,
                reg@,
                i as int,
                trees_view(stack@),
            ),
        decreases postfix@.len() - i,
    {
        let ghost st0 = trees_view(stack@);
        let symbol = &postfix[i];
        match symbol {
            Symbol::Number(n) => {
                stack.push(Expr::Number(*n));
                proof {
                    assert(trees_view(stack@) =~= st0.push(ExprV::Number(*n as int)));
                }
            },
            Symbol::Variable(s) => {
                stack.push(Expr::Variable(s.clone()));
                proof {
                    assert(trees_view(stack@) =~= st0.push(ExprV::Variable(s@)));
                }
            },
            Symbol::Operator(op) => {
                let right = match stack.pop() {
                    Some(e) => e,
                    None => {
                        return Err(SymErr::StackEmpty);
                    },
                };
                let left = match stack.pop() {
                    Some(e) => e,
                    None => {
                        return Err(SymErr::StackEmpty);
                    },
                };
                let node = Expr::Operator(*op, Box::new(left), Box::new(right));
                stack.push(node);
                proof {
                    assert(trees_view(stack@) =~= st0.take(st0.len() - 2).push(
                        ExprV::Operator(
                            *op,
                            Box::new(st0[st0.len() - 2]),
                            Box::new(st0[st0.len() - 1]),
                        ),
                    ));
                }
            },
            Symbol::Negate => {
                let inner = match stack.pop() {
                    Some(e) => e,
                    None => {
                        return Err(SymErr::StackEmpty);
                    },
                };
                let node = Expr::Negate(Box::new(inner));
                stack.push(node);
                proof {
                    assert(trees_view(stack@) =~= st0.drop_last().push(
                        ExprV::Negate(Box::new(st0.last())),
                    ));
                }
            },
            Symbol::Function(s) => {
                let argc_opt = reg.arity_of(s);
                let argc: u32 = match argc_opt {
                    Some(c) => c,
                    None => {
                        return Err(SymErr::UnknownFunction);
                    },
                };
                let argc_us = argc as usize;
                if stack.len() < argc_us {
                    return Err(SymErr::InvalidFunctionArgCount);
                }
                let mut args: Vec<Expr> = Vec::new();
                let mut k: usize = 0;
                proof {
                    assert(trees_view(args@) =~= Seq::<ExprV>::empty());
                    assert(st0.skip(st0.len() as int) =~= Seq::<ExprV>::empty());
                }
                while k < argc_us
                    invariant
                        0 <= k <= argc_us,
                        stack@.len() == st0.len() - k,
                        trees_view(stack@) =~= st0.take(st0.len() - k),
                        trees_view(args@) =~= st0.skip(st0.len() - k),
                    decreases argc_us - k,
                {
                    let ghost stv = trees_view(stack@);
                    let ghost agv = trees_view(args@);
                    let top = stack.pop().unwrap();
                    args.insert(0, top);
                    proof {
                        assert(trees_view(stack@) =~= stv.drop_last());
                        assert(stv.drop_last() =~= st0.take(st0.len() - (k + 1)));
                        assert(trees_view(args@) =~= seq![top@] + agv);
                        assert(stv.len() == st0.len() - k);
                        assert(top@ == stv[stv.len() - 1]);
                        assert(top@ == st0[st0.len() - (k + 1)]);
                        assert(seq![top@] + agv =~= st0.skip(st0.len() - (k + 1)));
                    }
                    k = k + 1;
                }
                let node = Expr::Function(s.clone(), args);
                proof {
                    lemma_exprs_view_is_map(args@);
                }
                stack.push(node);
                proof {
                    assert(trees_view(stack@) =~= st0.take(st0.len() - argc as int).push(
                        ExprV::Function(s@, st0.skip(st0.len() - argc as int)),
                    ));
                }
            },
        }
        proof {
            assert(spec_build_step(st0, syms[i as int], reg@) == Ok::<Seq<ExprV>, SymErr>(
                trees_view(stack@),
            ));
        }
        i = i + 1;
    }
    if stack.len() != 1 {
        return Err(SymErr::MalformedPostfix);
    }
    let result = match stack.pop() {
        Some(e) => e,
        None => {
            // unreachable: the stack holds exactly one tree
            return Err(SymErr::MalformedPostfix);
        },
    };
    Ok(result)
}

/// Every tree on the builder's stack is renderable.
pub open spec fn all_renderable(stack: Seq<ExprV>) -> bool {
    forall|i: int|
        0 <= i < stack.len() ==> crate::render::spec_renderable(#[trigger] stack[i])
}

proof fn lemma_build_step_renderable(stack: Seq<ExprV>, sv: SymbolV, reg: Seq<(Seq<char>, u32)>)
    requires
        all_renderable(stack),
        crate::postfix::no_paren_sym(sv),
        spec_build_step(stack, sv, reg) is Ok,
    ensures
        all_renderable(spec_build_step(stack, sv, reg).unwrap()),
{
    let out = spec_build_step(stack, sv, reg).unwrap();
    match sv {
        SymbolV::Number(n) => {
            assert(all_renderable(out));
        },
        SymbolV::Variable(s) => {
            assert(all_renderable(out));
        },
        SymbolV::Operator(op) => {
            assert(op.spec_precedence() is Some);
            let node = ExprV::Operator(
                op,
                Box::new(stack[stack.len() - 2]),
                Box::new(stack[stack.len() - 1]),
            );
            assert(crate::render::spec_renderable(node));
            assert(all_renderable(out));
        },
        SymbolV::Negate => {
            let node = ExprV::Negate(Box::new(stack.last()));
            assert(crate::render::spec_renderable(node));
            assert(all_renderable(out));
        },
        SymbolV::Function(name) => {
            let argc = spec_arity_of(reg, name).unwrap() as int;
            let node = ExprV::Function(name, stack.skip(stack.len() - argc));
            assert(crate::render::spec_renderable(node)) by {
                assert(forall|i: int|
                    0 <= i < stack.skip(stack.len() - argc).len()
                        ==> crate::render::spec_renderable(
                        #[trigger] stack.skip(stack.len() - argc)[i],
                    ));
            }
            assert(all_renderable(out));
        },
    }
}

proof fn lemma_build_run_renderable(
    syms: Seq<SymbolV>,
    reg: Seq<(Seq<char>, u32)>,
    i: int,
    stack: Seq<ExprV>,
)
    requires
        crate::postfix::all_no_paren(syms),
        all_renderable(stack),
        spec_build_run(syms, reg, i, stack) is Ok,
    ensures
        all_renderable(spec_build_run(syms, reg, i, stack).unwrap()),
    decreases syms.len() - i,
{
    if 0 <= i < syms.len() {
        lemma_build_step_renderable(stack, syms[i], reg);
        lemma_build_run_renderable(syms, reg, i + 1, spec_build_step(stack, syms[i], reg).unwrap());
    }
}

/// A tree built from a postfix sequence without parenthesis symbols is
/// renderable: every operator node carries a precedence.
pub proof fn lemma_postfix_to_tree_renderable(syms: Seq<SymbolV>, reg: Seq<(Seq<char>, u32)>)
    requires
        crate::postfix::all_no_paren(syms),
        spec_postfix_to_tree(syms, reg) is Ok,
    ensures
        crate::render::spec_renderable(spec_postfix_to_tree(syms, reg).unwrap()),
{
    lemma_build_run_renderable(syms, reg, 0, Seq::empty());
}

/// A renderable tree flattens to a sequence without parenthesis symbols.
pub proof fn lemma_flatten_renderable_no_paren(e: ExprV)
    requires
        crate::render::spec_renderable(e),
        spec_flatten(e) is Some,
    ensures
        crate::postfix::all_no_paren(spec_flatten(e).unwrap()),
    decreases e,
{
    match e {
        ExprV::Operator(op, a, b) => {
            lemma_flatten_renderable_no_paren(*a);
            lemma_flatten_renderable_no_paren(*b);
            assert(crate::postfix::no_paren_sym(SymbolV::Operator(op)));
            assert(crate::postfix::all_no_paren(
                spec_flatten(*a).unwrap() + spec_flatten(*b).unwrap() + seq![
                    SymbolV::Operator(op),
                ],
            ));
        },
        ExprV::Negate(a) => {
            lemma_flatten_renderable_no_paren(*a);
            assert(crate::postfix::all_no_paren(
                spec_flatten(*a).unwrap().push(SymbolV::Negate),
            ));
        },
        ExprV::Function(name, args) => {
            lemma_flatten_args_renderable_no_paren(args);
            assert(crate::postfix::all_no_paren(
                spec_flatten_args(args).unwrap().push(SymbolV::Function(name)),
            ));
        },
        _ => {},
    }
}

proof fn lemma_flatten_args_renderable_no_paren(args: Seq<ExprV>)
    requires
        forall|i: int|
            0 <= i < args.len() ==> crate::render::spec_renderable(#[trigger] args[i]),
        spec_flatten_args(args) is Some,
    ensures
        crate::postfix::all_no_paren(spec_flatten_args(args).unwrap()),
    decreases args,
{
    if args.len() > 0 {
        lemma_flatten_renderable_no_paren(args[0]);
        assert(forall|i: int|
            0 <= i < args.drop_first().len() ==> crate::render::spec_renderable(
                #[trigger] args.drop_first()[i],
            ));
        lemma_flatten_args_renderable_no_paren(args.drop_first());
        assert(crate::postfix::all_no_paren(
            spec_flatten(args[0]).unwrap() + spec_flatten_args(args.drop_first()).unwrap(),
        ));
    }
}

/// A well-formed tree: no pattern placeholder, and each function node has
/// exactly as many children as the registry gives its name.
pub open spec fn spec_wf_expr(e: ExprV, reg: Seq<(Seq<char>, u32)>) -> bool
    decreases e,
{
    match e {
        ExprV::Number(_) => true,
        ExprV::Variable(_) => true,
        ExprV::Identifier(_) => false,
        ExprV::Operator(_, a, b) => spec_wf_expr(*a, reg) && spec_wf_expr(*b, reg),
        ExprV::Negate(a) => spec_wf_expr(*a, reg),
        ExprV::Function(name, args) => spec_arity_of(reg, name) == Some(args.len() as u32)
            && args.len() <= u32::MAX && forall|i: int|
            0 <= i < args.len() ==> spec_wf_expr(#[trigger] args[i], reg),
    }
}

/// Reducing the flattened form of a well-formed tree, wherever it stands
/// in a longer sequence, pushes exactly that tree.
pub proof fn lemma_build_runs_flatten(
    e: ExprV,
    reg: Seq<(Seq<char>, u32)>,
    syms: Seq<SymbolV>,
    i: int,
    st: Seq<ExprV>,
)
    requires
        spec_wf_expr(e, reg),
        spec_flatten(e) is Some,
        0 <= i,
        i + spec_flatten(e).unwrap().len() <= syms.len(),
        syms.subrange(i, i + spec_flatten(e).unwrap().len()) == spec_flatten(e).unwrap(),
    ensures
        spec_build_run(syms, reg, i, st) == spec_build_run(
            syms,
            reg,
            i + spec_flatten(e).unwrap().len(),
            st.push(e),
        ),
    decreases e,
{
    let flat = spec_flatten(e).unwrap();
    match e {
        ExprV::Number(n) => {
            assert(syms[i] == flat[0]);
        },
        ExprV::Variable(s) => {
            assert(syms[i] == flat[0]);
        },
        ExprV::Identifier(_) => {},
        ExprV::Operator(op, a, b) => {
            let fa = spec_flatten(*a).unwrap();
            let fb = spec_flatten(*b).unwrap();
            assert(flat == fa + fb + seq![SymbolV::Operator(op)]);
            assert(forall|k: int|
                0 <= k < flat.len() ==> flat[k] == #[trigger] syms[i + k]) by {
                assert(forall|k: int|
                    0 <= k < flat.len() ==> flat[k] == #[trigger] syms.subrange(
                        i,
                        i + flat.len() as int,
                    )[k]);
            }
            assert(syms.subrange(i, i + fa.len() as int) =~= fa);
            assert forall|k: int| 0 <= k < fb.len() implies syms.subrange(
                i + fa.len() as int,
                i + fa.len() as int + fb.len() as int,
            )[k] == fb[k] by {
                assert((fa + fb)[fa.len() as int + k] == fb[k]);
                assert(flat[fa.len() as int + k] == fb[k]);
                assert(syms[i + (fa.len() as int + k)] == flat[fa.len() as int + k]);
            }
            assert(syms.subrange(i + fa.len() as int, i + fa.len() as int + fb.len() as int) =~= fb);
            lemma_build_runs_flatten(*a, reg, syms, i, st);
            lemma_build_runs_flatten(*b, reg, syms, i + fa.len() as int, st.push(*a));
            let j = i + fa.len() as int + fb.len() as int;
            assert(syms[j] == flat[fa.len() as int + fb.len() as int]);
            assert(syms[j] == SymbolV::Operator(op));
            let st2 = st.push(*a).push(*b);
            assert(st2.len() >= 2);
            assert(st2[st2.len() - 2] == *a);
            assert(st2[st2.len() - 1] == *b);
            assert(st2.take(st2.len() - 2) =~= st);
            assert(spec_build_step(st2, syms[j], reg) == Ok::<Seq<ExprV>, SymErr>(st.push(e)));
        },
        ExprV::Negate(a) => {
            let fa = spec_flatten(*a).unwrap();
            assert(syms.subrange(i, i + fa.len() as int) =~= fa);
            lemma_build_runs_flatten(*a, reg, syms, i, st);
            let j = i + fa.len() as int;
            assert(syms[j] == flat[fa.len() as int]);
            assert(syms[j] == SymbolV::Negate);
            let st2 = st.push(*a);
            assert(st2.drop_last() =~= st);
            assert(spec_build_step(st2, syms[j], reg) == Ok::<Seq<ExprV>, SymErr>(st.push(e)));
        },
        ExprV::Function(name, args) => {
            let fs = spec_flatten_args(args).unwrap();
            assert(syms.subrange(i, i + fs.len() as int) =~= fs);
            lemma_build_runs_flatten_args(args, reg, syms, i, st);
            let j = i + fs.len() as int;
            assert(syms[j] == flat[fs.len() as int]);
            assert(syms[j] == SymbolV::Function(name));
            let st2 = st + args;
            assert(st2.len() >= args.len());
            assert(st2.take(st2.len() - args.len()) =~= st);
            assert(st2.skip(st2.len() - args.len()) =~= args);
            assert(spec_build_step(st2, syms[j], reg) == Ok::<Seq<ExprV>, SymErr>(st.push(e)));
        },
    }
}

/// Reducing the flattened forms of a list of well-formed trees pushes
/// exactly those trees, in order.
pub proof fn lemma_build_runs_flatten_args(
    args: Seq<ExprV>,
    reg: Seq<(Seq<char>, u32)>,
    syms: Seq<SymbolV>,
    i: int,
    st: Seq<ExprV>,
)
    requires
        forall|k: int| 0 <= k < args.len() ==> spec_wf_expr(#[trigger] args[k], reg),
        spec_flatten_args(args) is Some,
        0 <= i,
        i + spec_flatten_args(args).unwrap().len() <= syms.len(),
        syms.subrange(i, i + spec_flatten_args(args).unwrap().len()) == spec_flatten_args(
            args,
        ).unwrap(),
    ensures
        spec_build_run(syms, reg, i, st) == spec_build_run(
            syms,
            reg,
            i + spec_flatten_args(args).unwrap().len(),
            st + args,
        ),
    decreases args,
{
    if args.len() == 0 {
        assert(st + args =~= st);
    } else {
        let f0 = spec_flatten(args[0]).unwrap();
        let fr = spec_flatten_args(args.drop_first()).unwrap();
        let fs = spec_flatten_args(args).unwrap();
        assert(fs == f0 + fr);
        assert(forall|k: int| 0 <= k < fs.len() ==> fs[k] == #[trigger] syms[i + k]) by {
            assert(forall|k: int|
                0 <= k < fs.len() ==> fs[k] == #[trigger] syms.subrange(
                    i,
                    i + fs.len() as int,
                )[k]);
        }
        assert(syms.subrange(i, i + f0.len() as int) =~= f0);
        assert forall|k: int| 0 <= k < fr.len() implies syms.subrange(
            i + f0.len() as int,
            i + f0.len() as int + fr.len() as int,
        )[k] == fr[k] by {
            assert(fs[f0.len() as int + k] == fr[k]);
            assert(syms[i + (f0.len() as int + k)] == fs[f0.len() as int + k]);
        }
        assert(syms.subrange(i + f0.len() as int, i + f0.len() as int + fr.len() as int) =~= fr);
        lemma_build_runs_flatten(args[0], reg, syms, i, st);
        assert(forall|k: int|
            0 <= k < args.drop_first().len() ==> spec_wf_expr(
                #[trigger] args.drop_first()[k],
                reg,
            ));
        lemma_build_runs_flatten_args(args.drop_first(), reg, syms, i + f0.len() as int, st.push(
            args[0],
        ));
        assert(st.push(args[0]) + args.drop_first() =~= st + args);
    }
}

/// Flattening a well-formed tree always succeeds.
pub proof fn lemma_wf_flattens(e: ExprV, reg: Seq<(Seq<char>, u32)>)
    requires
        spec_wf_expr(e, reg),
    ensures
        spec_flatten(e) is Some,
    decreases e,
{
    match e {
        ExprV::Operator(_, a, b) => {
            lemma_wf_flattens(*a, reg);
            lemma_wf_flattens(*b, reg);
        },
        ExprV::Negate(a) => {
            lemma_wf_flattens(*a, reg);
        },
        ExprV::Function(name, args) => {
            lemma_wf_flattens_args(args, reg);
        },
        _ => {},
    }
}

pub proof fn lemma_wf_flattens_args(args: Seq<ExprV>, reg: Seq<(Seq<char>, u32)>)
    requires
        forall|k: int| 0 <= k < args.len() ==> spec_wf_expr(#[trigger] args[k], reg),
    ensures
        spec_flatten_args(args) is Some,
    decreases args,
{
    if args.len() > 0 {
        lemma_wf_flattens(args[0], reg);
        assert(forall|k: int|
            0 <= k < args.drop_first().len() ==> spec_wf_expr(
                #[trigger] args.drop_first()[k],
                reg,
            ));
        lemma_wf_flattens_args(args.drop_first(), reg);
    }
}

/// Round trip of a well-formed tree: rebuilding its flattened form gives
/// the tree back.
pub proof fn lemma_build_flatten(e: ExprV, reg: Seq<(Seq<char>, u32)>)
    requires
        spec_wf_expr(e, reg),
    ensures
        spec_flatten(e) is Some,
        spec_postfix_to_tree(spec_flatten(e).unwrap(), reg) == Ok::<ExprV, SymErr>(e),
{
    lemma_wf_flattens(e, reg);
    let flat = spec_flatten(e).unwrap();
    assert(flat.subrange(0, flat.len() as int) =~= flat);
    lemma_build_runs_flatten(e, reg, flat, 0, Seq::empty());
    assert(spec_build_run(flat, reg, flat.len() as int, Seq::<ExprV>::empty().push(e)) == Ok::<
        Seq<ExprV>,
        SymErr,
    >(seq![e]));
    assert(spec_build_run(flat, reg, 0, Seq::empty()) == Ok::<Seq<ExprV>, SymErr>(seq![e]));
}

} // verus!
