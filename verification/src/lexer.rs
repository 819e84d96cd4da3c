//! The infix lexer: normalizes the power spelling and whitespace, splits
//! the input into tokens, and classifies each token as a number, operator,
//! negation marker, function name or variable, resolving sign ambiguity.

use vstd::prelude::*;
use vstd::string::*;
use crate::ast::{Operator, Registry, SymErr, Symbol, SymbolV, spec_arity_of};
use crate::tokenize::{spec_tokens, split_keep, views_of};

verus! {

pub open spec fn spec_is_digit(c: char) -> bool {
    '0' <= c && c <= '9'
}

pub open spec fn spec_digit_val(c: char) -> int {
    c as int - '0' as int
}

pub open spec fn spec_all_digits(s: Seq<char>) -> bool {
    s.len() > 0 && forall|i: int| 0 <= i < s.len() ==> spec_is_digit(s[i])
}

/// The integer a digit string denotes.
pub open spec fn spec_digits_val(s: Seq<char>) -> int
    decreases s.len(),
{
    if s.len() == 0 {
        0
    } else {
        spec_digits_val(s.drop_last()) * 10 + spec_digit_val(s.last())
    }
}

/// A token denotes a number when it is a non-empty digit string whose
/// value fits the number type.
pub open spec fn spec_is_number_token(s: Seq<char>) -> bool {
    spec_all_digits(s) && spec_digits_val(s) <= i64::MAX
}

pub proof fn lemma_digits_val_nonneg(s: Seq<char>)
    requires
        forall|i: int| 0 <= i < s.len() ==> spec_is_digit(s[i]),
    ensures
        spec_digits_val(s) >= 0,
    decreases s.len(),
{
    if s.len() > 0 {
        lemma_digits_val_nonneg(s.drop_last());
    }
}

/// Longer digit prefixes denote no smaller a value.
pub proof fn lemma_digits_val_prefix(s: Seq<char>, i: int, j: int)
    requires
        0 <= i <= j <= s.len(),
        forall|k: int| 0 <= k < s.len() ==> spec_is_digit(s[k]),
    ensures
        spec_digits_val(s.subrange(0, i)) <= spec_digits_val(s.subrange(0, j)),
    decreases j - i,
{
    if i < j {
        lemma_digits_val_prefix(s, i, j - 1);
        let p = s.subrange(0, j);
        assert(p.drop_last() =~= s.subrange(0, j - 1));
        lemma_digits_val_nonneg(s.subrange(0, j - 1));
    }
}

/// Parses a non-empty all-digit token into a number; anything else, or a
/// value over the number type's range, is no number.
pub fn parse_number(tok: &String) -> (r: Option<i64>)
    ensures
        r is Some <==> spec_is_number_token(tok@),
        r is Some ==> r.unwrap() as int == spec_digits_val(tok@),
{
    let s = tok.as_str();
    let n = s.unicode_len();
    if n == 0 {
        return None;
    }
    let mut v: i64 = 0;
    let mut i: usize = 0;
    #[verifier::loop_isolation(false)]
    while i < n
        invariant
            0 <= i <= n,
            forall|k: int| 0 <= k < i ==> spec_is_digit(s@[k]),
            v as int == spec_digits_val(s@.subrange(0, i as int)),
            v >= 0,
        decreases n - i,
    {
        let c = s.get_char(i);
        if !(c >= '0' && c <= '9') {
            return None;
        }
        let d: i64 = (c as u32 - '0' as u32) as i64;
        proof {
            assert(s@.subrange(0, i as int + 1).drop_last() =~= s@.subrange(0, i as int));
            assert(s@.subrange(0, i as int + 1).last() == s@[i as int]);
        }
        let scaled = v.checked_mul(10);
        let next = match scaled {
            Some(x) => x.checked_add(d),
            None => None,
        };
        match next {
            Some(y) => {
                v = y;
            },
            None => {
                proof {
                    if spec_all_digits(s@) {
                        lemma_digits_val_prefix(s@, i as int + 1, s@.len() as int);
                        assert(s@.subrange(0, s@.len() as int) =~= s@);
                    }
                }
                return None;
            },
        }
        i = i + 1;
    }
    proof {
        assert(s@.subrange(0, n as int) =~= s@);
    }
    Some(v)
}

/// Normalization of the raw input: every whitespace character is removed
/// and each `**` becomes `^`.
pub open spec fn spec_normalize(s: Seq<char>) -> Seq<char>
    decreases s.len(),
{
    if s.len() == 0 {
        Seq::empty()
    } else if s[0] == ' ' {
        spec_normalize(s.drop_first())
    } else if s.len() >= 2 && s[0] == '*' && s[1] == '*' {
        seq!['^'] + spec_normalize(s.skip(2))
    } else {
        seq![s[0]] + spec_normalize(s.drop_first())
    }
}

/// Turns the collected characters into a string.
///
/// Relies on `core::iter::Iterator::collect` for `String`: the string
/// holds exactly the characters of the iterator, in order.
#[verifier::external_body]
pub(crate) fn chars_to_string(v: &Vec<char>) -> (r: String)
    ensures
        r@ == v@,
{
    v.iter().collect()
}

/// Removes whitespace and rewrites `**` as `^`.
pub fn normalize(s: &str) -> (r: String)
    ensures
        r@ == spec_normalize(s@),
{
    let n = s.unicode_len();
    let mut out: Vec<char> = Vec::new();
    let mut i: usize = 0;
    proof {
        assert(s@.skip(0) =~= s@);
        assert(out@ + spec_normalize(s@) =~= spec_normalize(s@));
    }
    #[verifier::loop_isolation(false)]
    while i < n
        invariant
            0 <= i <= n,
            spec_normalize(s@) == out@ + spec_normalize(s@.skip(i as int)),
        decreases n - i,
    {
        let ghost rest = s@.skip(i as int);
        proof {
            assert(rest[0] == s@[i as int]);
            assert(rest.drop_first() =~= s@.skip(i as int + 1));
        }
        let c = s.get_char(i);
        if c == ' ' {
            i = i + 1;
        } else if c == '*' && i + 1 < n && s.get_char(i + 1) == '*' {
            proof {
                assert(rest[1] == s@[i as int + 1]);
                assert(rest.skip(2) =~= s@.skip(i as int + 2));
            }
            out.push('^');
            proof {
                assert(out@ + spec_normalize(s@.skip(i as int + 2)) =~= spec_normalize(s@));
            }
            i = i + 2;
        } else {
            out.push(c);
            proof {
                assert(out@ + spec_normalize(s@.skip(i as int + 1)) =~= spec_normalize(s@));
            }
            i = i + 1;
        }
    }
    proof {
        assert(s@.skip(n as int) =~= Seq::<char>::empty());
        assert(out@ =~= spec_normalize(s@));
    }
    chars_to_string(&out)
}

/// Whether position `i` of the token list is a sign context: the start of
/// the expression, or directly after `(`, `+` or `-`.
pub open spec fn spec_is_sign_pos(toks: Seq<Seq<char>>, i: int) -> bool {
    i == 0 || toks[i - 1] == seq!['('] || toks[i - 1] == seq!['+'] || toks[i - 1] == seq!['-']
}

/// Classification of the token at position `i`: `Ok(None)` is an elided
/// unary plus; `Err` is a non-additive operator in sign position.
pub open spec fn spec_classify(
    toks: Seq<Seq<char>>,
    reg: Seq<(Seq<char>, u32)>,
    i: int,
) -> Result<Option<SymbolV>, SymErr> {
    let t = toks[i];
    if spec_is_number_token(t) {
        Ok(Some(SymbolV::Number(spec_digits_val(t))))
    } else if t.len() > 0 && Operator::spec_from_char(t[0]) is Some {
        let op = Operator::spec_from_char(t[0]).unwrap();
        if spec_is_sign_pos(toks, i) && op == Operator::Add {
            Ok(None)
        } else if spec_is_sign_pos(toks, i) && op == Operator::Sub {
            Ok(Some(SymbolV::Negate))
        } else if spec_is_sign_pos(toks, i) && !op.spec_is_parenthesis() {
            Err(SymErr::InvalidSign)
        } else {
            Ok(Some(SymbolV::Operator(op)))
        }
    } else if spec_arity_of(reg, t) is Some {
        Ok(Some(SymbolV::Function(t)))
    } else {
        Ok(Some(SymbolV::Variable(t)))
    }
}

/// Lexing of the tokens from position `i` on; the first error wins.
pub open spec fn spec_lex_from(
    toks: Seq<Seq<char>>,
    reg: Seq<(Seq<char>, u32)>,
    i: int,
) -> Result<Seq<SymbolV>, SymErr>
    decreases toks.len() - i,
{
    if i < 0 || i >= toks.len() {
        Ok(Seq::empty())
    } else {
        match spec_classify(toks, reg, i) {
            Err(e) => Err(e),
            Ok(opt) => match spec_lex_from(toks, reg, i + 1) {
                Err(e) => Err(e),
                Ok(rest) => Ok(
                    (match opt {
                        None => Seq::<SymbolV>::empty(),
                        Some(sv) => seq![sv],
                    }) + rest,
                ),
            },
        }
    }
}

/// The symbols the lexer produces for a token list.
pub open spec fn spec_lex(
    toks: Seq<Seq<char>>,
    reg: Seq<(Seq<char>, u32)>,
) -> Result<Seq<SymbolV>, SymErr> {
    spec_lex_from(toks, reg, 0)
}

/// The views of a list of symbols.
pub open spec fn syms_view(v: Seq<Symbol>) -> Seq<SymbolV> {
    v.map_values(|s: Symbol| s@)
}

/// What the lexing pipeline says of the whole input string.
pub open spec fn spec_parse_infix(
    s: Seq<char>,
    reg: Seq<(Seq<char>, u32)>,
) -> Result<Seq<SymbolV>, SymErr> {
    spec_lex(spec_tokens(spec_normalize(s)), reg)
}

/// Whether the token is a single given character.
fn is_single_char(t: &String, c: char) -> (r: bool)
    ensures
        r == (t@ == seq![c]),
{
    let s = t.as_str();
    if s.unicode_len() == 1 && s.get_char(0) == c {
        proof {
            assert(t@ =~= seq![c]);
        }
        true
    } else {
        proof {
            assert(t@ != seq![c]);
        }
        false
    }
}

/// Tokenizes and lexes an infix string: numbers, operators, negation
/// markers, function names (those the registry knows) and variables, with
/// unary plus elided and a non-additive operator in sign position rejected.
pub fn parse_infix(reg: &Registry, infix_string: &str) -> (r: Result<Vec<Symbol>, SymErr>)
    ensures
        match (r, spec_parse_infix(infix_string@, reg@)) {
            (Ok(v), Ok(m)) => syms_view(v@) == m,
            (Err(e), Err(m)) => e == m,
            _ => false,
        },
{
    let normalized = normalize(infix_string);
    let tokens = split_keep(normalized.as_str());
    let ghost toks = views_of(tokens@);
    let mut syms: Vec<Symbol> = Vec::new();
    let mut i: usize = 0;
    proof {
        assert(syms_view(syms@) =~= Seq::<SymbolV>::empty());
        if spec_lex_from(toks, reg@, 0) is Ok {
            assert(syms_view(syms@) + spec_lex_from(toks, reg@, 0).unwrap()
                =~= spec_lex_from(toks, reg@, 0).unwrap());
        }
    }
    #[verifier::loop_isolation(false)]
    while i < tokens.len()
        invariant
            0 <= i <= tokens@.len(),
            toks.len() == tokens@.len(),
            forall|j: int| 0 <= j < toks.len() ==> toks[j] == tokens@[j]@,
            match spec_lex_from(toks, reg@, i as int) {
                Ok(rest) => spec_lex(toks, reg@) == Ok::<Seq<SymbolV>, SymErr>(
                    syms_view(syms@) + rest,
                ),
                Err(e) => spec_lex(toks, reg@) == Err::<Seq<SymbolV>, SymErr>(e),
            },
        decreases tokens@.len() - i,
    {
        let tok = &tokens[i];
        let ghost cls = spec_classify(toks, reg@, i as int);
        let sym_opt: Option<Symbol>;
        match parse_number(tok) {
            Some(n) => {
                sym_opt = Some(Symbol::Number(n));
            },
            None => {
                let tn = tok.as_str().unicode_len();
                let first_op: Option<Operator> = if tn > 0 {
                    Operator::from_char(tok.as_str().get_char(0))
                } else {
                    None
                };
                match first_op {
                    Some(op) => {
                        let is_sign = i == 0 || is_single_char(&tokens[i - 1], '(')
                            || is_single_char(&tokens[i - 1], '+')
                            || is_single_char(&tokens[i - 1], '-');
                        if is_sign && op == Operator::Add {
                            sym_opt = None;
                        } else if is_sign && op == Operator::Sub {
                            sym_opt = Some(Symbol::Negate);
                        } else if is_sign && !op.is_parenthesis() {
                            return Err(SymErr::InvalidSign);
                        } else {
                            sym_opt = Some(Symbol::Operator(op));
                        }
                    },
                    None => {
                        if reg.is_known(tok) {
                            sym_opt = Some(Symbol::Function(tok.clone()));
                        } else {
                            sym_opt = Some(Symbol::Variable(tok.clone()));
                        }
                    },
                }
            },
        }
        match sym_opt {
            Some(sym) => {
                proof {
                    assert(cls == Ok::<Option<SymbolV>, SymErr>(Some(sym@)));
                    if spec_lex_from(toks, reg@, i as int + 1) is Ok {
                        let rest2 = spec_lex_from(toks, reg@, i as int + 1).unwrap();
                        assert(syms_view(syms@.push(sym)) =~= syms_view(syms@) + seq![sym@]);
                        assert((syms_view(syms@) + seq![sym@]) + rest2 =~= syms_view(syms@) + (
                        seq![sym@] + rest2));
                    }
                }
                syms.push(sym);
            },
            None => {
                proof {
                    assert(cls == Ok::<Option<SymbolV>, SymErr>(None));
                    if spec_lex_from(toks, reg@, i as int + 1) is Ok {
                        let rest2 = spec_lex_from(toks, reg@, i as int + 1).unwrap();
                        assert(syms_view(syms@) + (Seq::<SymbolV>::empty() + rest2) =~= syms_view(
                        syms@) + rest2);
                    }
                }
            },
        }
        i = i + 1;
    }
    proof {
        assert(syms_view(syms@) + Seq::<SymbolV>::empty() =~= syms_view(syms@));
    }
    Ok(syms)
}

} // verus!
