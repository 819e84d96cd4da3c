//! The shunting-yard converter: rewrites an infix symbol sequence into
//! postfix order, inserting an implicit multiplication before a left
//! parenthesis that directly follows a number, and treating unary negation
//! as an operator of precedence 4.

use vstd::prelude::*;
use crate::ast::{Associativity, Operator, SymErr, Symbol, SymbolV};
use crate::lexer::syms_view;

verus! {

/// Precedence of a symbol sitting on the operator stack; `None` for
/// anything that stops a precedence pop (parentheses, functions).
pub open spec fn spec_stack_prec(sv: SymbolV) -> Option<u8> {
    match sv {
        SymbolV::Operator(op) => op.spec_precedence(),
        SymbolV::Negate => Some(4u8),
        _ => None,
    }
}

/// Whether an incoming operator of precedence `prec` and associativity
/// `assoc` pops `top`: strictly higher precedence always pops; a tie pops
/// only when the incoming operator is left-associative.
pub open spec fn spec_should_pop(top: SymbolV, prec: u8, assoc: Associativity) -> bool {
    match spec_stack_prec(top) {
        Some(p) => p > prec || (p == prec && assoc == Associativity::Left),
        None => false,
    }
}

/// Pops operators for an incoming operator: the emitted symbols in pop
/// order, and the remaining stack.
pub open spec fn spec_pop_ops(
    stack: Seq<SymbolV>,
    prec: u8,
    assoc: Associativity,
) -> (Seq<SymbolV>, Seq<SymbolV>)
    decreases stack.len(),
{
    if stack.len() == 0 {
        (Seq::empty(), stack)
    } else if spec_should_pop(stack.last(), prec, assoc) {
        let (em, rest) = spec_pop_ops(stack.drop_last(), prec, assoc);
        (seq![stack.last()] + em, rest)
    } else {
        (Seq::empty(), stack)
    }
}

/// Pops to the matching left parenthesis: the symbols emitted in pop order
/// and the stack below the discarded parenthesis, or `None` when the stack
/// empties first.
pub open spec fn spec_pop_to_lparen(stack: Seq<SymbolV>) -> Option<(Seq<SymbolV>, Seq<SymbolV>)>
    decreases stack.len(),
{
    if stack.len() == 0 {
        None
    } else if stack.last() == SymbolV::Operator(Operator::LPa) {
        Some((Seq::empty(), stack.drop_last()))
    } else {
        match spec_pop_to_lparen(stack.drop_last()) {
            None => None,
            Some((em, rest)) => Some((seq![stack.last()] + em, rest)),
        }
    }
}

/// The converter's state: emitted output, operator stack (top last), and
/// whether the last emitted symbol was a number.
pub ghost struct SyState {
    pub out: Seq<SymbolV>,
    pub stack: Seq<SymbolV>,
    pub last_num: bool,
}

pub open spec fn spec_sy_init() -> SyState {
    SyState { out: Seq::empty(), stack: Seq::empty(), last_num: false }
}

/// One shunting-yard step.
pub open spec fn spec_sy_step(st: SyState, sv: SymbolV) -> Result<SyState, SymErr> {
    match sv {
        SymbolV::Number(_) => Ok(
            SyState { out: st.out.push(sv), stack: st.stack, last_num: true },
        ),
        SymbolV::Variable(_) => Ok(
            SyState { out: st.out.push(sv), stack: st.stack, last_num: false },
        ),
        SymbolV::Function(_) => Ok(
            SyState { out: st.out, stack: st.stack.push(sv), last_num: false },
        ),
        SymbolV::Operator(Operator::LPa) => {
            let stack1 = if st.last_num {
                st.stack.push(SymbolV::Operator(Operator::Mul))
            } else {
                st.stack
            };
            Ok(SyState { out: st.out, stack: stack1.push(sv), last_num: false })
        },
        SymbolV::Operator(Operator::RPa) => {
            match spec_pop_to_lparen(st.stack) {
                None => Err(SymErr::ParenthesesMismatch),
                Some((em, rest)) => {
                    if rest.len() > 0 && rest.last() is Function {
                        Ok(
                            SyState {
                                out: st.out + em + seq![rest.last()],
                                stack: rest.drop_last(),
                                last_num: false,
                            },
                        )
                    } else {
                        Ok(SyState { out: st.out + em, stack: rest, last_num: false })
                    }
                },
            }
        },
        _ => {
            // a binary operator or the unary negation marker
            let prec = spec_stack_prec(sv).unwrap();
            let assoc = match sv {
                SymbolV::Operator(op) => op.spec_associativity().unwrap(),
                _ => Associativity::Left,
            };
            let (em, rest) = spec_pop_ops(st.stack, prec, assoc);
            Ok(SyState { out: st.out + em, stack: rest.push(sv), last_num: false })
        },
    }
}

/// Folding the steps over the symbols from position `i` on.
pub open spec fn spec_sy_run(syms: Seq<SymbolV>, i: int, st: SyState) -> Result<SyState, SymErr>
    decreases syms.len() - i,
{
    if i < 0 || i >= syms.len() {
        Ok(st)
    } else {
        match spec_sy_step(st, syms[i]) {
            Err(e) => Err(e),
            Ok(st1) => spec_sy_run(syms, i + 1, st1),
        }
    }
}

/// Draining the stack at end of input; a leftover parenthesis means the
/// parentheses were mismatched.
pub open spec fn spec_drain(stack: Seq<SymbolV>) -> Result<Seq<SymbolV>, SymErr>
    decreases stack.len(),
{
    if stack.len() == 0 {
        Ok(Seq::empty())
    } else if stack.last() == SymbolV::Operator(Operator::LPa) || stack.last() == SymbolV::Operator(
        Operator::RPa,
    ) {
        Err(SymErr::ParenthesesMismatch)
    } else {
        match spec_drain(stack.drop_last()) {
            Err(e) => Err(e),
            Ok(em) => Ok(seq![stack.last()] + em),
        }
    }
}

/// The postfix sequence of an infix symbol sequence.
pub open spec fn spec_to_postfix(syms: Seq<SymbolV>) -> Result<Seq<SymbolV>, SymErr> {
    match spec_sy_run(syms, 0, spec_sy_init()) {
        Err(e) => Err(e),
        Ok(st) => match spec_drain(st.stack) {
            Err(e) => Err(e),
            Ok(em) => Ok(st.out + em),
        },
    }
}

/// No parenthesis symbol: what a postfix sequence may hold.
pub open spec fn no_paren_sym(sv: SymbolV) -> bool {
    sv != SymbolV::Operator(Operator::LPa) && sv != SymbolV::Operator(Operator::RPa)
}

pub open spec fn all_no_paren(s: Seq<SymbolV>) -> bool {
    forall|i: int| 0 <= i < s.len() ==> no_paren_sym(#[trigger] s[i])
}

/// No closing parenthesis: what the operator stack may hold.
pub open spec fn no_rpa(s: Seq<SymbolV>) -> bool {
    forall|i: int| 0 <= i < s.len() ==> #[trigger] s[i] != SymbolV::Operator(Operator::RPa)
}

proof fn lemma_pop_ops_no_paren(stack: Seq<SymbolV>, prec: u8, assoc: Associativity)
    ensures
        all_no_paren(spec_pop_ops(stack, prec, assoc).0),
        forall|i: int|
            0 <= i < spec_pop_ops(stack, prec, assoc).1.len() ==> stack.contains(
                #[trigger] spec_pop_ops(stack, prec, assoc).1[i],
            ),
    decreases stack.len(),
{
    if stack.len() > 0 && spec_should_pop(stack.last(), prec, assoc) {
        lemma_pop_ops_no_paren(stack.drop_last(), prec, assoc);
        let (em, rest) = spec_pop_ops(stack, prec, assoc);
        assert(no_paren_sym(stack.last()));
        assert(forall|i: int|
            0 <= i < rest.len() ==> stack.drop_last().contains(#[trigger] rest[i]));
        assert(forall|i: int|
            0 <= i < stack.drop_last().len() ==> stack.contains(
                #[trigger] stack.drop_last()[i],
            ));
    }
}

proof fn lemma_pop_to_lparen_no_paren(stack: Seq<SymbolV>)
    requires
        no_rpa(stack),
        spec_pop_to_lparen(stack) is Some,
    ensures
        all_no_paren(spec_pop_to_lparen(stack).unwrap().0),
        no_rpa(spec_pop_to_lparen(stack).unwrap().1),
        forall|i: int|
            0 <= i < spec_pop_to_lparen(stack).unwrap().1.len() ==> stack.contains(
                #[trigger] spec_pop_to_lparen(stack).unwrap().1[i],
            ),
    decreases stack.len(),
{
    if stack.last() == SymbolV::Operator(Operator::LPa) {
        assert(forall|i: int|
            0 <= i < stack.drop_last().len() ==> stack.contains(
                #[trigger] stack.drop_last()[i],
            ));
    } else {
        assert(forall|i: int|
            0 <= i < stack.drop_last().len() ==> stack.contains(
                #[trigger] stack.drop_last()[i],
            ));
        lemma_pop_to_lparen_no_paren(stack.drop_last());
        assert(no_paren_sym(stack.last()));
    }
}

proof fn lemma_drain_no_paren(stack: Seq<SymbolV>)
    ensures
        spec_drain(stack) is Ok ==> all_no_paren(spec_drain(stack).unwrap()),
    decreases stack.len(),
{
    if stack.len() > 0 {
        lemma_drain_no_paren(stack.drop_last());
    }
}

/// Every state the conversion passes through emits no parenthesis and
/// keeps no closing parenthesis on the stack.
proof fn lemma_sy_step_no_paren(st: SyState, sv: SymbolV)
    requires
        all_no_paren(st.out),
        no_rpa(st.stack),
        spec_sy_step(st, sv) is Ok,
    ensures
        all_no_paren(spec_sy_step(st, sv).unwrap().out),
        no_rpa(spec_sy_step(st, sv).unwrap().stack),
{
    match sv {
        SymbolV::Operator(Operator::RPa) => {
            lemma_pop_to_lparen_no_paren(st.stack);
            let (em, rest) = spec_pop_to_lparen(st.stack).unwrap();
            assert(all_no_paren(st.out + em));
            if rest.len() > 0 && rest.last() is Function {
                assert(all_no_paren(st.out + em + seq![rest.last()]));
                assert(no_rpa(rest.drop_last())) by {
                    assert(forall|i: int|
                        0 <= i < rest.drop_last().len() ==> rest.drop_last()[i]
                            == #[trigger] rest[i]);
                }
            }
        },
        SymbolV::Operator(Operator::LPa) => {
            let stack1 = if st.last_num {
                st.stack.push(SymbolV::Operator(Operator::Mul))
            } else {
                st.stack
            };
            assert(no_rpa(stack1.push(sv)));
        },
        SymbolV::Number(_) => {},
        SymbolV::Variable(_) => {},
        SymbolV::Function(_) => {},
        _ => {
            let prec = spec_stack_prec(sv).unwrap();
            let assoc = match sv {
                SymbolV::Operator(op) => op.spec_associativity().unwrap(),
                _ => Associativity::Left,
            };
            lemma_pop_ops_no_paren(st.stack, prec, assoc);
            let (em, rest) = spec_pop_ops(st.stack, prec, assoc);
            assert(all_no_paren(st.out + em));
            assert(no_paren_sym(sv));
            assert(no_rpa(rest.push(sv)));
        },
    }
}

proof fn lemma_sy_run_no_paren(syms: Seq<SymbolV>, i: int, st: SyState)
    requires
        all_no_paren(st.out),
        no_rpa(st.stack),
        spec_sy_run(syms, i, st) is Ok,
    ensures
        all_no_paren(spec_sy_run(syms, i, st).unwrap().out),
        no_rpa(spec_sy_run(syms, i, st).unwrap().stack),
    decreases syms.len() - i,
{
    if 0 <= i < syms.len() {
        lemma_sy_step_no_paren(st, syms[i]);
        lemma_sy_run_no_paren(syms, i + 1, spec_sy_step(st, syms[i]).unwrap());
    }
}

/// The conversion never puts a parenthesis into its postfix output.
pub proof fn lemma_to_postfix_no_paren(syms: Seq<SymbolV>)
    requires
        spec_to_postfix(syms) is Ok,
    ensures
        all_no_paren(spec_to_postfix(syms).unwrap()),
{
    lemma_sy_run_no_paren(syms, 0, spec_sy_init());
    let st = spec_sy_run(syms, 0, spec_sy_init()).unwrap();
    lemma_drain_no_paren(st.stack);
    assert(all_no_paren(st.out + spec_drain(st.stack).unwrap()));
}

/// Precedence and associativity that an incoming symbol competes with:
/// `None` when the symbol is no operator or negation marker.
fn incoming_prec(sym: &Symbol) -> (r: Option<(u8, Associativity)>)
    ensures
        match r {
            Some((p, a)) => {
                &&& spec_stack_prec(sym@) == Some(p)
                &&& match sym@ {
                    SymbolV::Operator(op) => op.spec_associativity() == Some(a),
                    SymbolV::Negate => a == Associativity::Left,
                    _ => false,
                }
            },
            None => spec_stack_prec(sym@) is None || (sym@ is Operator
                && match sym@ {
                    SymbolV::Operator(op) => op.spec_associativity() is None,
                    _ => false,
                }),
        },
{
    match sym {
        Symbol::Operator(op) => {
            match (op.precedence(), op.associativity()) {
                (Some(p), Some(a)) => Some((p, a)),
                _ => None,
            }
        },
        Symbol::Negate => Some((4, Associativity::Left)),
        _ => None,
    }
}

/// Converts an infix symbol sequence to postfix by the shunting-yard
/// algorithm: operands go straight out, operators pop by precedence and
/// associativity, parentheses group, a function is emitted when its closing
/// parenthesis is reached, and a left parenthesis directly after a number
/// multiplies implicitly. Mismatched parentheses are always detected.
#[verifier::loop_isolation(false)]
pub fn to_postfix(infix: &Vec<Symbol>) -> (r: Result<Vec<Symbol>, SymErr>)
    ensures
        match (r, spec_to_postfix(syms_view(infix@))) {
            (Ok(v), Ok(m)) => syms_view(v@) == m,
            (Err(e), Err(m)) => e == m,
            _ => false,
        },
{
    let ghost syms = syms_view(infix@);
    let mut postfix: Vec<Symbol> = Vec::new();
    let mut op_stack: Vec<Symbol> = Vec::new();
    let mut last_was_number: bool = false;
    let mut i: usize = 0;
    proof {
        assert(syms_view(postfix@) =~= Seq::<SymbolV>::empty());
        assert(syms_view(op_stack@) =~= Seq::<SymbolV>::empty());
    }
    #[verifier::loop_isolation(false)]
    while i < infix.len()
        invariant
            0 <= i <= infix@.len(),
            syms.len() == infix@.len(),
            forall|j: int| 0 <= j < syms.len() ==> syms[j] == infix@[j]@,
            spec_sy_run(syms, 0, spec_sy_init()) == spec_sy_run(
                syms,
                i as int,
                SyState {
                    out: syms_view(postfix@),
                    stack: syms_view(op_stack@),
                    last_num: last_was_number,
                },
            ),
        decreases infix@.len() - i,
    {
        let ghost st0 = SyState {
            out: syms_view(postfix@),
            stack: syms_view(op_stack@),
            last_num: last_was_number,
        };
        let symbol = &infix[i];
        match symbol {
            Symbol::Number(_) => {
                postfix.push(symbol.dup());
                proof {
                    assert(syms_view(postfix@) =~= st0.out.push(symbol@));
                }
                last_was_number = true;
            },
            Symbol::Variable(_) => {
                postfix.push(symbol.dup());
                proof {
                    assert(syms_view(postfix@) =~= st0.out.push(symbol@));
                }
                last_was_number = false;
            },
            Symbol::Function(_) => {
                op_stack.push(symbol.dup());
                proof {
                    assert(syms_view(op_stack@) =~= st0.stack.push(symbol@));
                }
                last_was_number = false;
            },
            Symbol::Operator(Operator::LPa) => {
                if last_was_number {
                    op_stack.push(Symbol::Operator(Operator::Mul));
                    proof {
                        assert(syms_view(op_stack@) =~= st0.stack.push(
                            SymbolV::Operator(Operator::Mul),
                        ));
                    }
                }
                op_stack.push(symbol.dup());
                proof {
                    if st0.last_num {
                        assert(syms_view(op_stack@) =~= st0.stack.push(
                            SymbolV::Operator(Operator::Mul),
                        ).push(symbol@));
                    } else {
                        assert(syms_view(op_stack@) =~= st0.stack.push(symbol@));
                    }
                }
                last_was_number = false;
            },
            Symbol::Operator(Operator::RPa) => {
                let ghost target = spec_pop_to_lparen(st0.stack);
                let mut done: bool = false;
                while !done
                    invariant
                        !done ==> match spec_pop_to_lparen(syms_view(op_stack@)) {
                            None => target is None,
                            Some((em, rest)) => {
                                &&& target is Some
                                &&& target.unwrap().1 == rest
                                &&& st0.out + target.unwrap().0 == syms_view(postfix@) + em
                            },
                        },
                        done ==> target is Some && syms_view(op_stack@) == target.unwrap().1
                            && syms_view(postfix@) == st0.out + target.unwrap().0,
                    decreases op_stack@.len(),
                {
                    let ghost cur_stack = syms_view(op_stack@);
                    match op_stack.pop() {
                        None => {
                            proof {
                                assert(cur_stack.len() == 0);
                            }
                            return Err(SymErr::ParenthesesMismatch);
                        },
                        Some(top) => {
                            proof {
                                assert(cur_stack.last() == top@);
                                assert(syms_view(op_stack@) =~= cur_stack.drop_last());
                            }
                            match &top {
                                Symbol::Operator(Operator::LPa) => {
                                    proof {
                                        assert(st0.out + target.unwrap().0 =~= syms_view(
                                            postfix@,
                                        ) + Seq::<SymbolV>::empty());
                                        assert(st0.out + target.unwrap().0 =~= syms_view(
                                            postfix@,
                                        ));
                                    }
                                    done = true;
                                },
                                _ => {
                                    proof {
                                        if spec_pop_to_lparen(cur_stack.drop_last()) is Some {
                                            let (em2, rest2) = spec_pop_to_lparen(
                                                cur_stack.drop_last(),
                                            ).unwrap();
                                            assert(st0.out + target.unwrap().0 =~= (syms_view(
                                                postfix@,
                                            ).push(top@)) + em2);
                                        }
                                    }
                                    postfix.push(top);
                                },
                            }
                        },
                    }
                }
                // a function name directly below the parenthesis is emitted
                let mut popped_fn = false;
                if op_stack.len() > 0 {
                    let is_fn = match &op_stack[op_stack.len() - 1] {
                        Symbol::Function(_) => true,
                        _ => false,
                    };
                    if is_fn {
                        let f = op_stack.pop().unwrap();
                        proof {
                            assert(st0.out + target.unwrap().0 + seq![f@] =~= syms_view(
                                postfix@.push(f),
                            ));
                        }
                        postfix.push(f);
                        popped_fn = true;
                    }
                }
                proof {
                    if !popped_fn {
                        assert(st0.out + target.unwrap().0 =~= syms_view(postfix@));
                    }
                }
                proof {
                    let em = target.unwrap().0;
                    let rest = target.unwrap().1;
                    if popped_fn {
                        assert(rest.len() > 0 && rest.last() is Function);
                        assert(syms_view(postfix@) == st0.out + em + seq![rest.last()]);
                        assert(syms_view(op_stack@) == rest.drop_last());
                    } else {
                        assert(!(rest.len() > 0 && rest.last() is Function));
                        assert(syms_view(postfix@) == st0.out + em);
                        assert(syms_view(op_stack@) == rest);
                    }
                    assert(spec_sy_step(st0, syms[i as int]) == Ok::<SyState, SymErr>(
                        SyState {
                            out: syms_view(postfix@),
                            stack: syms_view(op_stack@),
                            last_num: false,
                        },
                    ));
                }
                last_was_number = false;
            },
            _ => {
                // a binary operator or the negation marker
                let pa = incoming_prec(symbol);
                let (prec, assoc) = match pa {
                    Some(x) => x,
                    None => {
                        // unreachable: every non-parenthesis operator and the
                        // negation marker carry a precedence
                        proof {
                            assert(false);
                        }
                        (0u8, Associativity::Left)
                    },
                };
                let ghost popped = spec_pop_ops(st0.stack, prec, assoc);
                let mut done: bool = false;
                while !done
                    invariant
                        spec_pop_ops(syms_view(op_stack@), prec, assoc).1 == popped.1,
                        st0.out + popped.0 == syms_view(postfix@) + spec_pop_ops(
                            syms_view(op_stack@),
                            prec,
                            assoc,
                        ).0,
                        done ==> syms_view(op_stack@) == popped.1 && syms_view(postfix@)
                            == st0.out + popped.0,
                    decreases op_stack@.len(), (if done { 0int } else { 1int }),
                {
                    let ghost cur_stack = syms_view(op_stack@);
                    let do_pop: bool;
                    if op_stack.len() == 0 {
                        do_pop = false;
                    } else {
                        let top_pa = incoming_prec(&op_stack[op_stack.len() - 1]);
                        match top_pa {
                            Some((tp, _)) => {
                                do_pop = tp > prec || (tp == prec && matches!(
                                    assoc,
                                    Associativity::Left,
                                ));
                            },
                            None => {
                                do_pop = false;
                            },
                        }
                    }
                    proof {
                        if cur_stack.len() > 0 {
                            assert(do_pop == spec_should_pop(cur_stack.last(), prec, assoc));
                        }
                    }
                    if !do_pop {
                        proof {
                            assert(spec_pop_ops(cur_stack, prec, assoc).0
                                =~= Seq::<SymbolV>::empty());
                            assert(st0.out + popped.0 =~= syms_view(postfix@));
                        }
                        done = true;
                    } else {
                        let top = op_stack.pop().unwrap();
                        proof {
                            assert(cur_stack.last() == top@);
                            assert(syms_view(op_stack@) =~= cur_stack.drop_last());
                            let rec = spec_pop_ops(cur_stack.drop_last(), prec, assoc);
                            assert(st0.out + popped.0 =~= (syms_view(postfix@).push(top@))
                                + rec.0);
                        }
                        postfix.push(top);
                    }
                }
                op_stack.push(symbol.dup());
                proof {
                    assert(syms_view(op_stack@) =~= popped.1.push(symbol@));
                    assert(st0.out + popped.0 =~= syms_view(postfix@));
                }
                last_was_number = false;
            },
        }
        proof {
            assert(spec_sy_step(st0, syms[i as int]) == Ok::<SyState, SymErr>(
                SyState {
                    out: syms_view(postfix@),
                    stack: syms_view(op_stack@),
                    last_num: last_was_number,
                },
            ));
        }
        i = i + 1;
    }
    // drain the remaining stack
    let ghost out0 = syms_view(postfix@);
    let ghost drained = spec_drain(syms_view(op_stack@));
    let mut done: bool = false;
    while !done
        invariant
            !done ==> match spec_drain(syms_view(op_stack@)) {
                Err(e) => drained == Err::<Seq<SymbolV>, SymErr>(e),
                Ok(em) => drained is Ok && out0 + drained.unwrap() == syms_view(postfix@) + em,
            },
            done ==> drained is Ok && syms_view(postfix@) == out0 + drained.unwrap(),
        decreases op_stack@.len(), (if done { 0int } else { 1int }),
    {
        let ghost cur_stack = syms_view(op_stack@);
        match op_stack.pop() {
            None => {
                proof {
                    assert(cur_stack.len() == 0);
                    assert(out0 + drained.unwrap() =~= syms_view(postfix@)
                        + Seq::<SymbolV>::empty());
                    assert(out0 + drained.unwrap() =~= syms_view(postfix@));
                }
                done = true;
            },
            Some(top) => {
                proof {
                    assert(cur_stack.last() == top@);
                    assert(syms_view(op_stack@) =~= cur_stack.drop_last());
                }
                let is_paren = match &top {
                    Symbol::Operator(op) => op.is_parenthesis(),
                    _ => false,
                };
                if is_paren {
                    return Err(SymErr::ParenthesesMismatch);
                }
                proof {
                    if spec_drain(cur_stack.drop_last()) is Ok {
                        let em2 = spec_drain(cur_stack.drop_last()).unwrap();
                        assert(out0 + drained.unwrap() =~= (syms_view(postfix@).push(top@))
                            + em2);
                    }
                }
                postfix.push(top);
            },
        }
    }
    Ok(postfix)
}

} // verus!
