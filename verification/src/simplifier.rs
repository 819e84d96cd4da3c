//! The simplifier: an ordered catalogue of rewrite rules over postfix
//! symbol sequences, each a find/replace pair of patterns with identifier
//! wildcards, and the engine that matches and applies them. A wildcard
//! binds to one complete subtree; a repeated slot number must match a
//! structurally identical subtree. Rules are tried in catalogue order at
//! each position, scanning end positions left to right, and the sequence is
//! rescanned from the start after each rewrite until no rule matches.

use vstd::prelude::*;
use crate::ast::{Expr, Operator, Registry, SymErr, Symbol, SymbolV, spec_arity_of};
use crate::lexer::syms_view;

verus! {

/// One element of a rule's pattern: a concrete symbol that must match
/// exactly, or a wildcard slot.
pub enum Pattern {
    Symbol(Symbol),
    Identifier(u32),
}

pub ghost enum PatternV {
    Symbol(SymbolV),
    Identifier(u32),
}

impl View for Pattern {
    type V = PatternV;

    open spec fn view(&self) -> PatternV {
        match self {
            Pattern::Symbol(s) => PatternV::Symbol(s@),
            Pattern::Identifier(i) => PatternV::Identifier(*i),
        }
    }
}

/// A rewrite rule: a postfix-order pattern to find and its postfix-order
/// replacement.
pub struct Rule {
    pub find: Vec<Pattern>,
    pub replace: Vec<Pattern>,
}

pub ghost struct RuleV {
    pub find: Seq<PatternV>,
    pub replace: Seq<PatternV>,
}

pub open spec fn pats_view(v: Seq<Pattern>) -> Seq<PatternV> {
    v.map_values(|p: Pattern| p@)
}

impl View for Rule {
    type V = RuleV;

    open spec fn view(&self) -> RuleV {
        RuleV { find: pats_view(self.find@), replace: pats_view(self.replace@) }
    }
}

/// How many operands a postfix symbol consumes; `None` for a parenthesis
/// or a function name the registry does not know.
pub open spec fn spec_sym_arity(sv: SymbolV, reg: Seq<(Seq<char>, u32)>) -> Option<int> {
    match sv {
        SymbolV::Number(_) => Some(0int),
        SymbolV::Variable(_) => Some(0int),
        SymbolV::Negate => Some(1int),
        SymbolV::Operator(op) => if op.spec_is_parenthesis() {
            None
        } else {
            Some(2int)
        },
        SymbolV::Function(name) => match spec_arity_of(reg, name) {
            Some(a) => Some(a as int),
            None => None,
        },
    }
}

/// Backward scan for the start of a complete subtree: at position `i` with
/// `need` operands still outstanding.
pub open spec fn spec_span_start(
    post: Seq<SymbolV>,
    reg: Seq<(Seq<char>, u32)>,
    i: int,
    need: int,
) -> Option<int>
    decreases i + 1,
{
    if i < 0 || i >= post.len() {
        None
    } else {
        match spec_sym_arity(post[i], reg) {
            None => None,
            Some(a) => {
                let need1 = need - 1 + a;
                if need1 == 0 {
                    Some(i)
                } else if i == 0 {
                    None
                } else {
                    spec_span_start(post, reg, i - 1, need1)
                }
            },
        }
    }
}

/// The start of the complete subtree whose last symbol stands at `end`.
pub open spec fn spec_subtree_start(
    post: Seq<SymbolV>,
    reg: Seq<(Seq<char>, u32)>,
    end: int,
) -> Option<int> {
    spec_span_start(post, reg, end, 1)
}

/// More operands outstanding than symbols left: the scan cannot close.
pub proof fn lemma_span_start_too_deep(
    post: Seq<SymbolV>,
    reg: Seq<(Seq<char>, u32)>,
    i: int,
    need: int,
)
    requires
        need > i + 1,
    ensures
        spec_span_start(post, reg, i, need) is None,
    decreases i + 1,
{
    if 0 <= i < post.len() {
        match spec_sym_arity(post[i], reg) {
            None => {},
            Some(a) => {
                let need1 = need - 1 + a;
                if need1 != 0 && i != 0 {
                    lemma_span_start_too_deep(post, reg, i - 1, need1);
                }
            },
        }
    }
}

/// Matching a pattern right to left against the symbols ending at `end`,
/// with the bindings collected so far: on success, the start of the matched
/// span and the final bindings.
pub open spec fn spec_match_at(
    post: Seq<SymbolV>,
    reg: Seq<(Seq<char>, u32)>,
    pat: Seq<PatternV>,
    end: int,
    b: Map<u32, Seq<SymbolV>>,
) -> Option<(int, Map<u32, Seq<SymbolV>>)>
    decreases pat.len(),
{
    if pat.len() == 0 {
        Some((end + 1, b))
    } else if end < 0 {
        None
    } else {
        match pat.last() {
            PatternV::Symbol(sv) => if post[end] == sv {
                spec_match_at(post, reg, pat.drop_last(), end - 1, b)
            } else {
                None
            },
            PatternV::Identifier(slot) => match spec_subtree_start(post, reg, end) {
                None => None,
                Some(st) => {
                    let sub = post.subrange(st, end + 1);
                    if b.dom().contains(slot) {
                        if b[slot] == sub {
                            spec_match_at(post, reg, pat.drop_last(), st - 1, b)
                        } else {
                            None
                        }
                    } else {
                        spec_match_at(post, reg, pat.drop_last(), st - 1, b.insert(slot, sub))
                    }
                },
            },
        }
    }
}

/// Instantiating a replacement pattern under the bindings; `None` when a
/// slot of the replacement was never bound.
pub open spec fn spec_subst(
    repl: Seq<PatternV>,
    b: Map<u32, Seq<SymbolV>>,
) -> Option<Seq<SymbolV>>
    decreases repl.len(),
{
    if repl.len() == 0 {
        Some(Seq::empty())
    } else {
        match spec_subst(repl.drop_last(), b) {
            None => None,
            Some(pre) => match repl.last() {
                PatternV::Symbol(sv) => Some(pre.push(sv)),
                PatternV::Identifier(slot) => if b.dom().contains(slot) {
                    Some(pre + b[slot])
                } else {
                    None
                },
            },
        }
    }
}

/// Applying one rule at span end `end`: the whole rewritten sequence, or
/// `None` when the rule does not match there.
pub open spec fn spec_try_rule(
    post: Seq<SymbolV>,
    reg: Seq<(Seq<char>, u32)>,
    rule: RuleV,
    end: int,
) -> Option<Seq<SymbolV>> {
    match spec_match_at(post, reg, rule.find, end, Map::empty()) {
        None => None,
        Some((st, b)) => match spec_subst(rule.replace, b) {
            None => None,
            Some(rep) => Some(post.subrange(0, st) + rep + post.skip(end + 1)),
        },
    }
}

/// The first rewrite: end positions scanned left to right, and at each the
/// rules tried in catalogue order.
pub open spec fn spec_find_rewrite_from(
    post: Seq<SymbolV>,
    reg: Seq<(Seq<char>, u32)>,
    rules: Seq<RuleV>,
    end: int,
    ri: int,
) -> Option<Seq<SymbolV>>
    decreases post.len() - end, rules.len() - ri,
{
    if end < 0 || end >= post.len() {
        None
    } else if ri < 0 || ri >= rules.len() {
        spec_find_rewrite_from(post, reg, rules, end + 1, 0)
    } else {
        match spec_try_rule(post, reg, rules[ri], end) {
            Some(n) => Some(n),
            None => spec_find_rewrite_from(post, reg, rules, end, ri + 1),
        }
    }
}

pub open spec fn spec_find_rewrite(
    post: Seq<SymbolV>,
    reg: Seq<(Seq<char>, u32)>,
    rules: Seq<RuleV>,
) -> Option<Seq<SymbolV>> {
    spec_find_rewrite_from(post, reg, rules, 0, 0)
}

/// `k` single rewrites from `post`; once no rule matches the sequence
/// stays as it is.
pub open spec fn spec_rewrite_k(
    post: Seq<SymbolV>,
    reg: Seq<(Seq<char>, u32)>,
    rules: Seq<RuleV>,
    k: nat,
) -> Seq<SymbolV>
    decreases k,
{
    if k == 0 {
        post
    } else {
        match spec_find_rewrite(post, reg, rules) {
            None => post,
            Some(n) => spec_rewrite_k(n, reg, rules, (k - 1) as nat),
        }
    }
}

/// What a finished simplification is: some number of rewrites after which
/// no rule matches anywhere.
pub open spec fn spec_simplified_from(
    post: Seq<SymbolV>,
    reg: Seq<(Seq<char>, u32)>,
    rules: Seq<RuleV>,
    r: Seq<SymbolV>,
) -> bool {
    exists|k: nat|
        r == spec_rewrite_k(post, reg, rules, k) && spec_find_rewrite(r, reg, rules) is None
}

/// The rewriting is deterministic: any two finished simplifications of the
/// same sequence under the same catalogue are the same sequence.
pub proof fn lemma_rewrite_k_stable(
    post: Seq<SymbolV>,
    reg: Seq<(Seq<char>, u32)>,
    rules: Seq<RuleV>,
    k1: nat,
    k2: nat,
)
    requires
        k1 <= k2,
        spec_find_rewrite(spec_rewrite_k(post, reg, rules, k1), reg, rules) is None,
    ensures
        spec_rewrite_k(post, reg, rules, k2) == spec_rewrite_k(post, reg, rules, k1),
    decreases k1,
{
    if k1 == 0 {
        lemma_rewrite_k_none(post, reg, rules, k2);
    } else {
        match spec_find_rewrite(post, reg, rules) {
            None => {
                lemma_rewrite_k_none(post, reg, rules, k1);
                lemma_rewrite_k_none(post, reg, rules, k2);
            },
            Some(n) => {
                lemma_rewrite_k_stable(n, reg, rules, (k1 - 1) as nat, (k2 - 1) as nat);
            },
        }
    }
}

/// Once no rule matches, further rewriting changes nothing.
pub proof fn lemma_rewrite_k_none(
    post: Seq<SymbolV>,
    reg: Seq<(Seq<char>, u32)>,
    rules: Seq<RuleV>,
    k: nat,
)
    requires
        spec_find_rewrite(post, reg, rules) is None,
    ensures
        spec_rewrite_k(post, reg, rules, k) == post,
    decreases k,
{
    if k > 0 {
        lemma_rewrite_k_none(post, reg, rules, (k - 1) as nat);
    }
}

/// Determinism of simplification: the finished result of a sequence under
/// a catalogue is unique.
pub proof fn lemma_simplify_deterministic(
    post: Seq<SymbolV>,
    reg: Seq<(Seq<char>, u32)>,
    rules: Seq<RuleV>,
    r1: Seq<SymbolV>,
    r2: Seq<SymbolV>,
)
    requires
        spec_simplified_from(post, reg, rules, r1),
        spec_simplified_from(post, reg, rules, r2),
    ensures
        r1 == r2,
{
    let k1 = choose|k: nat|
        r1 == spec_rewrite_k(post, reg, rules, k) && spec_find_rewrite(r1, reg, rules) is None;
    let k2 = choose|k: nat|
        r2 == spec_rewrite_k(post, reg, rules, k) && spec_find_rewrite(r2, reg, rules) is None;
    if k1 <= k2 {
        lemma_rewrite_k_stable(post, reg, rules, k1, k2);
    } else {
        lemma_rewrite_k_stable(post, reg, rules, k2, k1);
    }
}

/// No symbol a rule's replacement writes is a parenthesis.
pub open spec fn rule_no_paren(r: RuleV) -> bool {
    forall|i: int|
        0 <= i < r.replace.len() ==> match #[trigger] r.replace[i] {
            PatternV::Symbol(sv) => crate::postfix::no_paren_sym(sv),
            PatternV::Identifier(_) => true,
        }
}

pub open spec fn rules_no_paren(rs: Seq<RuleV>) -> bool {
    forall|j: int| 0 <= j < rs.len() ==> rule_no_paren(#[trigger] rs[j])
}

/// The fixed catalogue writes no parentheses.
pub proof fn lemma_spec_rules_no_paren()
    ensures
        rules_no_paren(spec_rules()),
{
    assert forall|j: int| 0 <= j < spec_rules().len() implies rule_no_paren(
        #[trigger] spec_rules()[j],
    ) by {
        let r = spec_rules()[j];
        assert forall|i: int| 0 <= i < r.replace.len() implies match #[trigger] r.replace[i] {
            PatternV::Symbol(sv) => crate::postfix::no_paren_sym(sv),
            PatternV::Identifier(_) => true,
        } by {
            let e = r.replace[i];
        }
    }
}

/// A backward subtree scan never reports a start past where it began.
proof fn lemma_span_start_le(post: Seq<SymbolV>, reg: Seq<(Seq<char>, u32)>, i: int, need: int)
    requires
        spec_span_start(post, reg, i, need) is Some,
    ensures
        0 <= spec_span_start(post, reg, i, need).unwrap() <= i < post.len(),
    decreases i + 1,
{
    match spec_sym_arity(post[i], reg) {
        Some(a) => {
            let need1 = need - 1 + a;
            if need1 != 0 && i != 0 {
                lemma_span_start_le(post, reg, i - 1, need1);
            }
        },
        None => {},
    }
}

/// A successful match starts within the sequence.
proof fn lemma_match_at_bounds(
    post: Seq<SymbolV>,
    reg: Seq<(Seq<char>, u32)>,
    pat: Seq<PatternV>,
    end: int,
    b: Map<u32, Seq<SymbolV>>,
)
    requires
        -1 <= end < post.len(),
        spec_match_at(post, reg, pat, end, b) is Some,
    ensures
        0 <= spec_match_at(post, reg, pat, end, b).unwrap().0 <= end + 1,
    decreases pat.len(),
{
    if pat.len() == 0 {
    } else {
        match pat.last() {
            PatternV::Symbol(sv) => {
                lemma_match_at_bounds(post, reg, pat.drop_last(), end - 1, b);
            },
            PatternV::Identifier(slot) => {
                let st = spec_subtree_start(post, reg, end).unwrap();
                lemma_span_start_le(post, reg, end, 1);
                let sub = post.subrange(st, end + 1);
                if b.dom().contains(slot) {
                    lemma_match_at_bounds(post, reg, pat.drop_last(), st - 1, b);
                } else {
                    lemma_match_at_bounds(post, reg, pat.drop_last(), st - 1, b.insert(slot, sub));
                }
            },
        }
    }
}

pub open spec fn binds_no_paren(b: Map<u32, Seq<SymbolV>>) -> bool {
    forall|s: u32| b.dom().contains(s) ==> crate::postfix::all_no_paren(#[trigger] b[s])
}

/// Matching against a parenthesis-free sequence binds only
/// parenthesis-free spans.
proof fn lemma_match_at_no_paren(
    post: Seq<SymbolV>,
    reg: Seq<(Seq<char>, u32)>,
    pat: Seq<PatternV>,
    end: int,
    b: Map<u32, Seq<SymbolV>>,
)
    requires
        crate::postfix::all_no_paren(post),
        binds_no_paren(b),
        spec_match_at(post, reg, pat, end, b) is Some,
    ensures
        binds_no_paren(spec_match_at(post, reg, pat, end, b).unwrap().1),
    decreases pat.len(),
{
    if pat.len() == 0 {
    } else {
        match pat.last() {
            PatternV::Symbol(sv) => {
                lemma_match_at_no_paren(post, reg, pat.drop_last(), end - 1, b);
            },
            PatternV::Identifier(slot) => {
                let st = spec_subtree_start(post, reg, end).unwrap();
                lemma_span_start_le(post, reg, end, 1);
                let sub = post.subrange(st, end + 1);
                assert(crate::postfix::all_no_paren(sub)) by {
                    assert(forall|k: int| 0 <= k < sub.len() ==> sub[k] == #[trigger] post[st + k]);
                }
                if b.dom().contains(slot) {
                    lemma_match_at_no_paren(post, reg, pat.drop_last(), st - 1, b);
                } else {
                    assert(binds_no_paren(b.insert(slot, sub)));
                    lemma_match_at_no_paren(post, reg, pat.drop_last(), st - 1, b.insert(slot, sub));
                }
            },
        }
    }
}

/// Substitution under parenthesis-free bindings by a rule that writes no
/// parenthesis gives a parenthesis-free sequence.
proof fn lemma_subst_no_paren(repl: Seq<PatternV>, b: Map<u32, Seq<SymbolV>>)
    requires
        binds_no_paren(b),
        forall|i: int|
            0 <= i < repl.len() ==> match #[trigger] repl[i] {
                PatternV::Symbol(sv) => crate::postfix::no_paren_sym(sv),
                PatternV::Identifier(_) => true,
            },
        spec_subst(repl, b) is Some,
    ensures
        crate::postfix::all_no_paren(spec_subst(repl, b).unwrap()),
    decreases repl.len(),
{
    if repl.len() > 0 {
        assert(forall|i: int|
            0 <= i < repl.drop_last().len() ==> repl.drop_last()[i] == #[trigger] repl[i]);
        lemma_subst_no_paren(repl.drop_last(), b);
        let pre = spec_subst(repl.drop_last(), b).unwrap();
        match repl.last() {
            PatternV::Symbol(sv) => {
                assert(crate::postfix::all_no_paren(pre.push(sv)));
            },
            PatternV::Identifier(slot) => {
                assert(crate::postfix::all_no_paren(pre + b[slot]));
            },
        }
    }
}

/// One rewrite of a parenthesis-free sequence under the catalogue stays
/// parenthesis-free.
proof fn lemma_find_rewrite_from_no_paren(
    post: Seq<SymbolV>,
    reg: Seq<(Seq<char>, u32)>,
    rules: Seq<RuleV>,
    end: int,
    ri: int,
)
    requires
        crate::postfix::all_no_paren(post),
        rules_no_paren(rules),
        spec_find_rewrite_from(post, reg, rules, end, ri) is Some,
    ensures
        crate::postfix::all_no_paren(spec_find_rewrite_from(post, reg, rules, end, ri).unwrap()),
    decreases post.len() - end, rules.len() - ri,
{
    if end < 0 || end >= post.len() {
    } else if ri < 0 || ri >= rules.len() {
        lemma_find_rewrite_from_no_paren(post, reg, rules, end + 1, 0);
    } else {
        match spec_try_rule(post, reg, rules[ri], end) {
            Some(n) => {
                let (st, b) = spec_match_at(post, reg, rules[ri].find, end, Map::empty()).unwrap();
                assert(binds_no_paren(Map::<u32, Seq<SymbolV>>::empty()));
                lemma_match_at_bounds(post, reg, rules[ri].find, end, Map::empty());
                lemma_match_at_no_paren(post, reg, rules[ri].find, end, Map::empty());
                lemma_subst_no_paren(rules[ri].replace, b);
                let rep = spec_subst(rules[ri].replace, b).unwrap();
                assert(crate::postfix::all_no_paren(post.subrange(0, st))) by {
                    assert(forall|k: int|
                        0 <= k < post.subrange(0, st).len() ==> post.subrange(0, st)[k]
                            == #[trigger] post[k]);
                }
                assert(crate::postfix::all_no_paren(post.skip(end + 1))) by {
                    assert(forall|k: int|
                        0 <= k < post.skip(end + 1).len() ==> post.skip(end + 1)[k]
                            == #[trigger] post[end + 1 + k]);
                }
                assert(crate::postfix::all_no_paren(post.subrange(0, st) + rep + post.skip(
                    end + 1,
                )));
            },
            None => {
                lemma_find_rewrite_from_no_paren(post, reg, rules, end, ri + 1);
            },
        }
    }
}

/// Any number of rewrites keeps a parenthesis-free sequence
/// parenthesis-free.
pub proof fn lemma_rewrite_k_no_paren(
    post: Seq<SymbolV>,
    reg: Seq<(Seq<char>, u32)>,
    rules: Seq<RuleV>,
    k: nat,
)
    requires
        crate::postfix::all_no_paren(post),
        rules_no_paren(rules),
    ensures
        crate::postfix::all_no_paren(spec_rewrite_k(post, reg, rules, k)),
    decreases k,
{
    if k > 0 {
        match spec_find_rewrite(post, reg, rules) {
            None => {},
            Some(n) => {
                lemma_find_rewrite_from_no_paren(post, reg, rules, 0, 0);
                lemma_rewrite_k_no_paren(n, reg, rules, (k - 1) as nat);
            },
        }
    }
}

/// Simplification keeps a tree renderable: a renderable tree flattens to a
/// parenthesis-free sequence, the catalogue writes no parenthesis, and a
/// parenthesis-free sequence rebuilds to a renderable tree.
pub proof fn lemma_simplify_renderable(
    e: crate::ast::ExprV,
    reg: Seq<(Seq<char>, u32)>,
    rules: Seq<RuleV>,
)
    requires
        crate::render::spec_renderable(e),
        rules_no_paren(rules),
        spec_simplify(e, reg, rules) is Ok,
    ensures
        crate::render::spec_renderable(spec_simplify(e, reg, rules).unwrap()),
{
    let flat = crate::builder::spec_flatten(e).unwrap();
    crate::builder::lemma_flatten_renderable_no_paren(e);
    lemma_rewrite_k_no_paren(flat, reg, rules, REWRITE_BOUND as nat);
    crate::builder::lemma_postfix_to_tree_renderable(
        spec_rewrite_k(flat, reg, rules, REWRITE_BOUND as nat),
        reg,
    );
}

/// Determinism of a whole simplification: given the same catalogue
/// ordering, simplifying the same tree twice yields identical results,
/// since the result is pinned to a function of the tree and the catalogue.
pub proof fn lemma_simplify_deterministic_tree(
    e: crate::ast::ExprV,
    reg: Seq<(Seq<char>, u32)>,
    rules: Seq<RuleV>,
    r1: Result<crate::ast::ExprV, SymErr>,
    r2: Result<crate::ast::ExprV, SymErr>,
)
    requires
        r1 == spec_simplify(e, reg, rules),
        r2 == spec_simplify(e, reg, rules),
    ensures
        r1 == r2,
{
}

/// Idempotence of a whole simplification: a well-formed tree whose
/// postfix form no rule matches anywhere simplifies to itself: the
/// rewriting leaves the postfix form unchanged, and rebuilding it gives
/// the same tree back.
pub proof fn lemma_simplify_idempotent_tree(
    e: crate::ast::ExprV,
    reg: Seq<(Seq<char>, u32)>,
    rules: Seq<RuleV>,
)
    requires
        crate::builder::spec_wf_expr(e, reg),
        crate::builder::spec_flatten(e) is Some,
        spec_find_rewrite(crate::builder::spec_flatten(e).unwrap(), reg, rules) is None,
    ensures
        spec_rewrite_k(
            crate::builder::spec_flatten(e).unwrap(),
            reg,
            rules,
            REWRITE_BOUND as nat,
        ) == crate::builder::spec_flatten(e).unwrap(),
        spec_simplify(e, reg, rules) == Ok::<crate::ast::ExprV, SymErr>(e),
{
    crate::builder::lemma_build_flatten(e, reg);
    lemma_rewrite_k_none(
        crate::builder::spec_flatten(e).unwrap(),
        reg,
        rules,
        REWRITE_BOUND as nat,
    );
}

/// Idempotence at the symbol level: a sequence no rule matches simplifies
/// to itself.
pub proof fn lemma_simplify_idempotent(
    post: Seq<SymbolV>,
    reg: Seq<(Seq<char>, u32)>,
    rules: Seq<RuleV>,
    r: Seq<SymbolV>,
)
    requires
        spec_find_rewrite(post, reg, rules) is None,
        spec_simplified_from(post, reg, rules, r),
    ensures
        r == post,
{
    let k = choose|k: nat|
        r == spec_rewrite_k(post, reg, rules, k) && spec_find_rewrite(r, reg, rules) is None;
    lemma_rewrite_k_none(post, reg, rules, k);
}

/// The views of a bindings list.
pub open spec fn binds_entries(b: Seq<(u32, Vec<Symbol>)>) -> Seq<(u32, Seq<SymbolV>)> {
    b.map_values(|p: (u32, Vec<Symbol>)| (p.0, syms_view(p.1@)))
}

/// The map a bindings list denotes; a later entry would win, though the
/// engine never adds a slot twice.
pub open spec fn binds_map(bs: Seq<(u32, Seq<SymbolV>)>) -> Map<u32, Seq<SymbolV>>
    decreases bs.len(),
{
    if bs.len() == 0 {
        Map::empty()
    } else {
        binds_map(bs.drop_last()).insert(bs.last().0, bs.last().1)
    }
}

pub open spec fn binds_unique(bs: Seq<(u32, Seq<SymbolV>)>) -> bool {
    forall|j1: int, j2: int| 0 <= j1 < j2 < bs.len() ==> bs[j1].0 != bs[j2].0
}

pub proof fn lemma_binds_map_lookup(bs: Seq<(u32, Seq<SymbolV>)>, slot: u32)
    requires
        binds_unique(bs),
    ensures
        binds_map(bs).dom().contains(slot) <==> exists|j: int|
            0 <= j < bs.len() && #[trigger] bs[j].0 == slot,
        forall|j: int|
            0 <= j < bs.len() && #[trigger] bs[j].0 == slot ==> binds_map(bs)[slot] == bs[j].1,
    decreases bs.len(),
{
    if bs.len() > 0 {
        lemma_binds_map_lookup(bs.drop_last(), slot);
        if binds_map(bs).dom().contains(slot) && bs.last().0 != slot {
            assert(binds_map(bs.drop_last()).dom().contains(slot));
            let j = choose|j: int|
                0 <= j < bs.drop_last().len() && #[trigger] bs.drop_last()[j].0 == slot;
            assert(bs[j].0 == slot);
        }
        if exists|j: int| 0 <= j < bs.len() && #[trigger] bs[j].0 == slot {
            let j = choose|j: int| 0 <= j < bs.len() && #[trigger] bs[j].0 == slot;
            if j < bs.len() - 1 {
                assert(bs.drop_last()[j].0 == slot);
            }
        }
    }
}

/// How many operands a postfix symbol consumes.
fn sym_arity(sym: &Symbol, reg: &Registry) -> (r: Option<u32>)
    ensures
        match r {
            Some(a) => spec_sym_arity(sym@, reg@) == Some(a as int),
            None => spec_sym_arity(sym@, reg@) is None,
        },
{
    match sym {
        Symbol::Number(_) => Some(0),
        Symbol::Variable(_) => Some(0),
        Symbol::Negate => Some(1),
        Symbol::Operator(op) => if op.is_parenthesis() {
            None
        } else {
            Some(2)
        },
        Symbol::Function(name) => reg.arity_of(name),
    }
}

/// The start of the complete subtree whose last symbol stands at `end`.
#[verifier::loop_isolation(false)]
pub fn subtree_start(post: &Vec<Symbol>, reg: &Registry, end: usize) -> (r: Option<usize>)
    requires
        end < post@.len(),
    ensures
        match r {
            Some(st) => spec_subtree_start(syms_view(post@), reg@, end as int) == Some(st as int)
                && st <= end,
            None => spec_subtree_start(syms_view(post@), reg@, end as int) is None,
        },
{
    let ghost postv = syms_view(post@);
    let mut i: usize = end;
    let mut need: u128 = 1;
    loop
        invariant
            0 <= i <= end < post@.len(),
            1 <= need,
            need <= i + 1,
            spec_span_start(postv, reg@, end as int, 1) == spec_span_start(
                postv,
                reg@,
                i as int,
                need as int,
            ),
        decreases i,
    {
        let a: u128 = match sym_arity(&post[i], reg) {
            Some(a) => a as u128,
            None => {
                return None;
            },
        };
        let need1 = need - 1 + a;
        if need1 == 0 {
            return Some(i);
        } else if i == 0 {
            return None;
        } else if need1 > i as u128 {
            proof {
                lemma_span_start_too_deep(postv, reg@, i as int - 1, need1 as int);
            }
            return None;
        } else {
            need = need1;
            i = i - 1;
        }
    }
}

/// A copy of the span `[a, b)` of a postfix sequence.
#[verifier::loop_isolation(false)]
fn copy_span(post: &Vec<Symbol>, a: usize, b: usize) -> (r: Vec<Symbol>)
    requires
        a <= b <= post@.len(),
    ensures
        syms_view(r@) == syms_view(post@).subrange(a as int, b as int),
{
    let mut out: Vec<Symbol> = Vec::new();
    let mut i: usize = a;
    proof {
        assert(syms_view(out@) =~= syms_view(post@).subrange(a as int, a as int));
    }
    while i < b
        invariant
            a <= i <= b,
            syms_view(out@) == syms_view(post@).subrange(a as int, i as int),
        decreases b - i,
    {
        out.push(post[i].dup());
        proof {
            assert(syms_view(out@) =~= syms_view(post@).subrange(a as int, i as int + 1));
        }
        i = i + 1;
    }
    out
}

/// Value equality of two symbol sequences.
#[verifier::loop_isolation(false)]
fn spans_eq(x: &Vec<Symbol>, y: &Vec<Symbol>) -> (r: bool)
    ensures
        r == (syms_view(x@) == syms_view(y@)),
{
    if x.len() != y.len() {
        proof {
            assert(syms_view(x@).len() != syms_view(y@).len());
        }
        return false;
    }
    let mut i: usize = 0;
    while i < x.len()
        invariant
            0 <= i <= x@.len(),
            x@.len() == y@.len(),
            forall|j: int| 0 <= j < i ==> syms_view(x@)[j] == syms_view(y@)[j],
        decreases x@.len() - i,
    {
        if !crate::ast::sym_eq(&x[i], &y[i]) {
            proof {
                assert(syms_view(x@)[i as int] != syms_view(y@)[i as int]);
            }
            return false;
        }
        i = i + 1;
    }
    proof {
        assert(syms_view(x@) =~= syms_view(y@));
    }
    true
}

/// The index of the binding for `slot`, if there is one.
#[verifier::loop_isolation(false)]
fn lookup_slot(b: &Vec<(u32, Vec<Symbol>)>, slot: u32) -> (r: Option<usize>)
    requires
        binds_unique(binds_entries(b@)),
    ensures
        match r {
            Some(j) => j < b@.len() && b@[j as int].0 == slot && binds_map(
                binds_entries(b@),
            ).dom().contains(slot) && binds_map(binds_entries(b@))[slot] == syms_view(
                b@[j as int].1@,
            ),
            None => !binds_map(binds_entries(b@)).dom().contains(slot),
        },
{
    proof {
        lemma_binds_map_lookup(binds_entries(b@), slot);
    }
    let mut j: usize = 0;
    while j < b.len()
        invariant
            0 <= j <= b@.len(),
            forall|j2: int| 0 <= j2 < j ==> binds_entries(b@)[j2].0 != slot,
        decreases b@.len() - j,
    {
        if b[j].0 == slot {
            proof {
                assert(binds_entries(b@)[j as int].0 == slot);
            }
            return Some(j);
        }
        j = j + 1;
    }
    None
}

/// Matches a rule's find pattern against the span ending at `end`: the
/// start of the matched span and the wildcard bindings.
#[verifier::loop_isolation(false)]
pub fn match_rule_at(post: &Vec<Symbol>, reg: &Registry, find: &Vec<Pattern>, end: usize) -> (r:
    Option<(usize, Vec<(u32, Vec<Symbol>)>)>)
    requires
        end < post@.len(),
    ensures
        match r {
            None => spec_match_at(
                syms_view(post@),
                reg@,
                pats_view(find@),
                end as int,
                Map::empty(),
            ) is None,
            Some((st, b)) => {
                &&& binds_unique(binds_entries(b@))
                &&& st <= end + 1
                &&& spec_match_at(
                    syms_view(post@),
                    reg@,
                    pats_view(find@),
                    end as int,
                    Map::empty(),
                ) == Some((st as int, binds_map(binds_entries(b@))))
            },
        },
{
    let ghost postv = syms_view(post@);
    let ghost patv = pats_view(find@);
    // `end` is below the vector's length, so `end + 1` stays in range
    let n = post.len();
    let mut b: Vec<(u32, Vec<Symbol>)> = Vec::new();
    let mut j: usize = find.len();
    let mut cur: usize = end + 1;
    proof {
        assert(patv.take(find@.len() as int) =~= patv);
        assert(binds_entries(b@) =~= Seq::<(u32, Seq<SymbolV>)>::empty());
        assert(binds_map(binds_entries(b@)) =~= Map::<u32, Seq<SymbolV>>::empty());
    }
    while j > 0
        invariant
            0 <= j <= find@.len(),
            0 <= cur <= end + 1,
            binds_unique(binds_entries(b@)),
            spec_match_at(postv, reg@, patv, end as int, Map::empty()) == spec_match_at(
                postv,
                reg@,
                patv.take(j as int),
                cur as int - 1,
                binds_map(binds_entries(b@)),
            ),
        decreases j,
    {
        proof {
            assert(patv.take(j as int).last() == patv[j as int - 1]);
            assert(patv.take(j as int).drop_last() =~= patv.take(j as int - 1));
        }
        match &find[j - 1] {
            Pattern::Symbol(s) => {
                if cur == 0 {
                    return None;
                }
                if !crate::ast::sym_eq(&post[cur - 1], s) {
                    return None;
                }
                cur = cur - 1;
            },
            Pattern::Identifier(slot) => {
                if cur == 0 {
                    return None;
                }
                let st = match subtree_start(post, reg, cur - 1) {
                    Some(st) => st,
                    None => {
                        return None;
                    },
                };
                let sub = copy_span(post, st, cur);
                let ghost subv = syms_view(sub@);
                match lookup_slot(&b, *slot) {
                    Some(jx) => {
                        if !spans_eq(&b[jx].1, &sub) {
                            return None;
                        }
                    },
                    None => {
                        let ghost pre = binds_entries(b@);
                        proof {
                            lemma_binds_map_lookup(pre, *slot);
                        }
                        b.push((*slot, sub));
                        proof {
                            assert(binds_entries(b@) =~= pre.push((*slot, subv)));
                            assert(binds_entries(b@).drop_last() =~= pre);
                            assert(binds_map(binds_entries(b@)) == binds_map(pre).insert(
                                *slot,
                                subv,
                            ));
                        }
                    },
                }
                cur = st;
            },
        }
        j = j - 1;
    }
    proof {
        assert(patv.take(0) =~= Seq::<PatternV>::empty());
    }
    Some((cur, b))
}

pub proof fn lemma_subst_extend_none(p: Seq<PatternV>, b: Map<u32, Seq<SymbolV>>, i: int)
    requires
        0 <= i <= p.len(),
        spec_subst(p.take(i), b) is None,
    ensures
        spec_subst(p, b) is None,
    decreases p.len() - i,
{
    if i == p.len() {
        assert(p.take(i) =~= p);
    } else {
        assert(p.take(i + 1).drop_last() =~= p.take(i));
        lemma_subst_extend_none(p, b, i + 1);
    }
}

/// Instantiates a replacement pattern under the bindings.
#[verifier::loop_isolation(false)]
pub fn subst(repl: &Vec<Pattern>, b: &Vec<(u32, Vec<Symbol>)>) -> (r: Option<Vec<Symbol>>)
    requires
        binds_unique(binds_entries(b@)),
    ensures
        match r {
            None => spec_subst(pats_view(repl@), binds_map(binds_entries(b@))) is None,
            Some(v) => spec_subst(pats_view(repl@), binds_map(binds_entries(b@))) == Some(
                syms_view(v@),
            ),
        },
{
    let ghost replv = pats_view(repl@);
    let ghost bm = binds_map(binds_entries(b@));
    let mut out: Vec<Symbol> = Vec::new();
    let mut i: usize = 0;
    proof {
        assert(replv.take(0) =~= Seq::<PatternV>::empty());
        assert(syms_view(out@) =~= Seq::<SymbolV>::empty());
    }
    while i < repl.len()
        invariant
            0 <= i <= repl@.len(),
            spec_subst(replv.take(i as int), bm) == Some(syms_view(out@)),
        decreases repl@.len() - i,
    {
        let ghost pre = syms_view(out@);
        proof {
            assert(replv.take(i as int + 1).last() == replv[i as int]);
            assert(replv.take(i as int + 1).drop_last() =~= replv.take(i as int));
        }
        match &repl[i] {
            Pattern::Symbol(s) => {
                out.push(s.dup());
                proof {
                    assert(syms_view(out@) =~= pre.push(s@));
                }
            },
            Pattern::Identifier(slot) => {
                match lookup_slot(b, *slot) {
                    Some(jx) => {
                        let mut k: usize = 0;
                        let ghost span = syms_view(b@[jx as int].1@);
                        while k < b[jx].1.len()
                            invariant
                                0 <= k <= b@[jx as int].1@.len(),
                                jx < b@.len(),
                                span == syms_view(b@[jx as int].1@),
                                syms_view(out@) == pre + span.take(k as int),
                            decreases b@[jx as int].1@.len() - k,
                        {
                            let ghost mid = syms_view(out@);
                            out.push(b[jx].1[k].dup());
                            proof {
                                assert(syms_view(out@) =~= mid.push(span[k as int]));
                                assert(span.take(k as int).push(span[k as int]) =~= span.take(
                                    k as int + 1,
                                ));
                                assert((pre + span.take(k as int)).push(span[k as int]) =~= pre
                                    + span.take(k as int + 1));
                                assert(syms_view(out@) =~= pre + span.take(k as int + 1));
                            }
                            k = k + 1;
                        }
                        proof {
                            assert(span.take(span.len() as int) =~= span);
                            assert(syms_view(out@) =~= pre + bm[*slot]);
                        }
                    },
                    None => {
                        proof {
                            lemma_subst_extend_none(replv, bm, i as int + 1);
                        }
                        return None;
                    },
                }
            },
        }
        i = i + 1;
    }
    proof {
        assert(replv.take(repl@.len() as int) =~= replv);
    }
    Some(out)
}

/// The views of a rule catalogue.
pub open spec fn rules_view(v: Seq<Rule>) -> Seq<RuleV> {
    v.map_values(|r: Rule| r@)
}

/// Finds the first rewrite in scan order and applies it: the whole
/// rewritten sequence, or `None` when no rule matches anywhere.
#[verifier::loop_isolation(false)]
pub fn find_rewrite(post: &Vec<Symbol>, reg: &Registry, rules: &Vec<Rule>) -> (r: Option<
    Vec<Symbol>,
>)
    ensures
        match r {
            None => spec_find_rewrite(syms_view(post@), reg@, rules_view(rules@)) is None,
            Some(v) => spec_find_rewrite(syms_view(post@), reg@, rules_view(rules@)) == Some(
                syms_view(v@),
            ),
        },
{
    let ghost postv = syms_view(post@);
    let ghost rulesv = rules_view(rules@);
    let mut end: usize = 0;
    while end < post.len()
        invariant
            0 <= end <= post@.len(),
            spec_find_rewrite(postv, reg@, rulesv) == spec_find_rewrite_from(
                postv,
                reg@,
                rulesv,
                end as int,
                0,
            ),
        decreases post@.len() - end,
    {
        let mut ri: usize = 0;
        while ri < rules.len()
            invariant
                0 <= ri <= rules@.len(),
                end < post@.len(),
                spec_find_rewrite(postv, reg@, rulesv) == spec_find_rewrite_from(
                    postv,
                    reg@,
                    rulesv,
                    end as int,
                    ri as int,
                ),
            decreases rules@.len() - ri,
        {
            let ghost rv = rulesv[ri as int];
            match match_rule_at(post, reg, &rules[ri].find, end) {
                None => {},
                Some((st, b)) => {
                    match subst(&rules[ri].replace, &b) {
                        None => {},
                        Some(mut rep) => {
                            let mut out = copy_span(post, 0, st);
                            let ghost outv0 = syms_view(out@);
                            let ghost repv = syms_view(rep@);
                            out.append(&mut rep);
                            proof {
                                assert(syms_view(out@) =~= outv0 + repv);
                            }
                            let ghost outv1 = syms_view(out@);
                            let mut tail = copy_span(post, end + 1, post.len());
                            let ghost tailv = syms_view(tail@);
                            out.append(&mut tail);
                            proof {
                                assert(syms_view(out@) =~= outv1 + tailv);
                                assert(postv.skip(end as int + 1) =~= postv.subrange(
                                    end as int + 1,
                                    postv.len() as int,
                                ));
                                assert(syms_view(out@) =~= postv.subrange(0, st as int) + repv
                                    + postv.skip(end as int + 1));
                            }
                            return Some(out);
                        },
                    }
                },
            }
            ri = ri + 1;
        }
        end = end + 1;
    }
    None
}

/// Appending one more rewrite to a chain of `k` rewrites.
pub proof fn lemma_rewrite_k_snoc(
    post: Seq<SymbolV>,
    reg: Seq<(Seq<char>, u32)>,
    rules: Seq<RuleV>,
    k: nat,
    n: Seq<SymbolV>,
)
    requires
        spec_find_rewrite(spec_rewrite_k(post, reg, rules, k), reg, rules) == Some(n),
    ensures
        spec_rewrite_k(post, reg, rules, k + 1) == n,
    decreases k,
{
    if k == 0 {
        assert(spec_rewrite_k(post, reg, rules, 0) == post);
        assert(spec_find_rewrite(post, reg, rules) == Some(n));
        assert(spec_rewrite_k(post, reg, rules, 1) == spec_rewrite_k(n, reg, rules, 0));
    } else {
        match spec_find_rewrite(post, reg, rules) {
            None => {
                lemma_rewrite_k_none(post, reg, rules, k);
                lemma_rewrite_k_none(post, reg, rules, k + 1);
                assert(false);
            },
            Some(m) => {
                lemma_rewrite_k_snoc(m, reg, rules, (k - 1) as nat, n);
                assert(spec_rewrite_k(post, reg, rules, k + 1) == spec_rewrite_k(
                    m,
                    reg,
                    rules,
                    k,
                ));
                assert(spec_rewrite_k(m, reg, rules, ((k - 1) as nat) + 1) == n);
            },
        }
    }
}

/// The fixed rule catalogue, in application order: additive identity (both
/// operand orders), multiplicative annihilation (both orders), self-
/// multiplication to a square, self-addition to a doubling, self-division
/// to one, division as a product with a negative power, additive factoring
/// (both orders of the inner product), and the power-sum combination,
/// whose replacement doubles the second exponent rather than summing the
/// two.
pub open spec fn spec_rules() -> Seq<RuleV> {
    let n0 = PatternV::Symbol(SymbolV::Number(0));
    let n1 = PatternV::Symbol(SymbolV::Number(1));
    let n2 = PatternV::Symbol(SymbolV::Number(2));
    let nm1 = PatternV::Symbol(SymbolV::Number(-1));
    let i0 = PatternV::Identifier(0u32);
    let i1 = PatternV::Identifier(1u32);
    let i2 = PatternV::Identifier(2u32);
    let add = PatternV::Symbol(SymbolV::Operator(Operator::Add));
    let mul = PatternV::Symbol(SymbolV::Operator(Operator::Mul));
    let div = PatternV::Symbol(SymbolV::Operator(Operator::Div));
    let pow = PatternV::Symbol(SymbolV::Operator(Operator::Pow));
    seq![
        RuleV { find: seq![n0, i0, add], replace: seq![i0] },
        RuleV { find: seq![i0, n0, add], replace: seq![i0] },
        RuleV { find: seq![i0, n0, mul], replace: seq![n0] },
        RuleV { find: seq![n0, i0, mul], replace: seq![n0] },
        RuleV { find: seq![i0, i0, mul], replace: seq![i0, n2, pow] },
        RuleV { find: seq![i0, i0, add], replace: seq![n2, i0, mul] },
        RuleV { find: seq![i0, i0, div], replace: seq![n1] },
        RuleV { find: seq![i0, i1, div], replace: seq![i0, i1, nm1, pow, mul] },
        RuleV { find: seq![i0, i0, i1, mul, add], replace: seq![i0, n1, i1, add, mul] },
        RuleV { find: seq![i0, i1, mul, i0, add], replace: seq![i0, n1, i1, add, mul] },
        RuleV { find: seq![i0, i1, pow, i0, i2, pow, add], replace: seq![i0, i2, i2, add, pow] },
    ]
}

fn pn(n: i64) -> (p: Pattern)
    ensures
        p@ == PatternV::Symbol(SymbolV::Number(n as int)),
{
    Pattern::Symbol(Symbol::Number(n))
}

fn pi(s: u32) -> (p: Pattern)
    ensures
        p@ == PatternV::Identifier(s),
{
    Pattern::Identifier(s)
}

fn po(op: Operator) -> (p: Pattern)
    ensures
        p@ == PatternV::Symbol(SymbolV::Operator(op)),
{
    Pattern::Symbol(Symbol::Operator(op))
}

/// The most single rewrites one simplification performs before it stops
/// rescanning.
pub const REWRITE_BOUND: u64 = 100000;

/// What simplifying a tree returns: its postfix form rewritten toward the
/// catalogue's fixed point and rebuilt. A tree with a pattern placeholder
/// cannot be flattened, which is an internal malformation.
pub open spec fn spec_simplify(
    e: crate::ast::ExprV,
    reg: Seq<(Seq<char>, u32)>,
    rules: Seq<RuleV>,
) -> Result<crate::ast::ExprV, SymErr> {
    match crate::builder::spec_flatten(e) {
        None => Err(SymErr::MalformedPostfix),
        Some(flat) => crate::builder::spec_postfix_to_tree(
            spec_rewrite_k(flat, reg, rules, REWRITE_BOUND as nat),
            reg,
        ),
    }
}

/// The simplifier: the rule catalogue, built once and immutable from then
/// on, with the engine that applies it.
pub struct Simplifier {
    pub rules: Vec<Rule>,
}

impl View for Simplifier {
    type V = Seq<RuleV>;

    open spec fn view(&self) -> Seq<RuleV> {
        rules_view(self.rules@)
    }
}

impl Simplifier {
    /// Builds the fixed rule catalogue.
    pub fn new() -> (r: Simplifier)
        ensures
            r@ == spec_rules(),
    {
        let mut rules: Vec<Rule> = Vec::new();
        // 0 + x = x  and  x + 0 = x
        let r0 = Rule {
            find: vec![pn(0), pi(0), po(Operator::Add)],
            replace: vec![pi(0)],
        };
        proof {
            assert(r0@.find =~= spec_rules()[0].find);
            assert(r0@.replace =~= spec_rules()[0].replace);
        }
        rules.push(r0);
        let r1 = Rule {
            find: vec![pi(0), pn(0), po(Operator::Add)],
            replace: vec![pi(0)],
        };
        proof {
            assert(r1@.find =~= spec_rules()[1].find);
            assert(r1@.replace =~= spec_rules()[1].replace);
        }
        rules.push(r1);
        // x * 0 = 0  and  0 * x = 0
        let r2 = Rule {
            find: vec![pi(0), pn(0), po(Operator::Mul)],
            replace: vec![pn(0)],
        };
        proof {
            assert(r2@.find =~= spec_rules()[2].find);
            assert(r2@.replace =~= spec_rules()[2].replace);
        }
        rules.push(r2);
        let r3 = Rule {
            find: vec![pn(0), pi(0), po(Operator::Mul)],
            replace: vec![pn(0)],
        };
        proof {
            assert(r3@.find =~= spec_rules()[3].find);
            assert(r3@.replace =~= spec_rules()[3].replace);
        }
        rules.push(r3);
        // x * x = x^2
        let r4 = Rule {
            find: vec![pi(0), pi(0), po(Operator::Mul)],
            replace: vec![pi(0), pn(2), po(Operator::Pow)],
        };
        proof {
            assert(r4@.find =~= spec_rules()[4].find);
            assert(r4@.replace =~= spec_rules()[4].replace);
        }
        rules.push(r4);
        // x + x = 2x
        let r5 = Rule {
            find: vec![pi(0), pi(0), po(Operator::Add)],
            replace: vec![pn(2), pi(0), po(Operator::Mul)],
        };
        proof {
            assert(r5@.find =~= spec_rules()[5].find);
            assert(r5@.replace =~= spec_rules()[5].replace);
        }
        rules.push(r5);
        // x / x = 1
        let r6 = Rule {
            find: vec![pi(0), pi(0), po(Operator::Div)],
            replace: vec![pn(1)],
        };
        proof {
            assert(r6@.find =~= spec_rules()[6].find);
            assert(r6@.replace =~= spec_rules()[6].replace);
        }
        rules.push(r6);
        // x / y = x * y^-1
        let r7 = Rule {
            find: vec![pi(0), pi(1), po(Operator::Div)],
            replace: vec![pi(0), pi(1), pn(-1), po(Operator::Pow), po(Operator::Mul)],
        };
        proof {
            assert(r7@.find =~= spec_rules()[7].find);
            assert(r7@.replace =~= spec_rules()[7].replace);
        }
        rules.push(r7);
        // x + x*y = x*(1+y)  and  x*y + x = x*(1+y)
        let r8 = Rule {
            find: vec![pi(0), pi(0), pi(1), po(Operator::Mul), po(Operator::Add)],
            replace: vec![pi(0), pn(1), pi(1), po(Operator::Add), po(Operator::Mul)],
        };
        proof {
            assert(r8@.find =~= spec_rules()[8].find);
            assert(r8@.replace =~= spec_rules()[8].replace);
        }
        rules.push(r8);
        let r9 = Rule {
            find: vec![pi(0), pi(1), po(Operator::Mul), pi(0), po(Operator::Add)],
            replace: vec![pi(0), pn(1), pi(1), po(Operator::Add), po(Operator::Mul)],
        };
        proof {
            assert(r9@.find =~= spec_rules()[9].find);
            assert(r9@.replace =~= spec_rules()[9].replace);
        }
        rules.push(r9);
        // x^y + x^z = x^(z+z): the replacement doubles the second exponent
        let r10 = Rule {
            find: vec![
                pi(0),
                pi(1),
                po(Operator::Pow),
                pi(0),
                pi(2),
                po(Operator::Pow),
                po(Operator::Add),
            ],
            replace: vec![pi(0), pi(2), pi(2), po(Operator::Add), po(Operator::Pow)],
        };
        proof {
            assert(r10@.find =~= spec_rules()[10].find);
            assert(r10@.replace =~= spec_rules()[10].replace);
        }
        rules.push(r10);
        let s = Simplifier { rules };
        proof {
            assert(s@ =~= spec_rules());
        }
        s
    }

    /// Rewrites a postfix sequence toward the catalogue's fixed point:
    /// scan positions left to right, rules in order, first match applies,
    /// rescan from the start, until no rule matches anywhere or the pass
    /// bound is spent. The bound makes the loop total; it is far beyond
    /// what the catalogue needs on any realistic input.
    #[verifier::loop_isolation(false)]
    pub fn simplify_postfix(&self, reg: &Registry, postfix: Vec<Symbol>) -> (r: Vec<Symbol>)
        ensures
            syms_view(r@) == spec_rewrite_k(
                syms_view(postfix@),
                reg@,
                self@,
                REWRITE_BOUND as nat,
            ),
            spec_find_rewrite(syms_view(r@), reg@, self@) is None ==> spec_simplified_from(
                syms_view(postfix@),
                reg@,
                self@,
                syms_view(r@),
            ),
    {
        let ghost orig = syms_view(postfix@);
        let mut cur = postfix;
        let mut i: u64 = 0;
        while i < REWRITE_BOUND
            invariant
                0 <= i <= REWRITE_BOUND,
                syms_view(cur@) == spec_rewrite_k(orig, reg@, self@, i as nat),
            decreases REWRITE_BOUND - i,
        {
            match find_rewrite(&cur, reg, &self.rules) {
                None => {
                    proof {
                        lemma_rewrite_k_stable(orig, reg@, self@, i as nat, REWRITE_BOUND as nat);
                    }
                    return cur;
                },
                Some(n) => {
                    proof {
                        lemma_rewrite_k_snoc(orig, reg@, self@, i as nat, syms_view(n@));
                    }
                    cur = n;
                    i = i + 1;
                },
            }
        }
        cur
    }

    /// Simplifies a tree: flattens it to postfix, rewrites toward the
    /// fixed point, and rebuilds the tree. The result is a function of the
    /// tree and the catalogue alone, so simplification is deterministic.
    pub fn simplify(&self, reg: &Registry, expr: &Expr) -> (r: Result<Expr, SymErr>)
        ensures
            match (r, spec_simplify(expr@, reg@, self@)) {
                (Ok(t), Ok(m)) => t@ == m,
                (Err(e), Err(m)) => e == m,
                _ => false,
            },
    {
        let flat = match crate::builder::expr_to_postfix(expr) {
            Ok(v) => v,
            Err(e) => {
                return Err(e);
            },
        };
        let rewritten = self.simplify_postfix(reg, flat);
        let ghost rw = syms_view(rewritten@);
        let r = crate::builder::postfix_to_tree(reg, &rewritten);
        r
    }
}

} // verus!
