//! The tokenizer: splits a raw string at every operator, parenthesis or
//! comma character, keeping maximal runs of other characters as single
//! tokens. Commas split but are dropped; operator characters stand alone.

use vstd::prelude::*;
use vstd::string::*;
use crate::ast::Operator;

verus! {

/// Characters at which the tokenizer splits.
pub open spec fn spec_is_split_char(c: char) -> bool {
    Operator::spec_is_operator_char(c) || c == ','
}

/// Splitting of `s`, with `cur` the run of non-split characters read so far.
pub open spec fn spec_split(s: Seq<char>, cur: Seq<char>) -> Seq<Seq<char>>
    decreases s.len(),
{
    if s.len() == 0 {
        if cur.len() == 0 {
            Seq::empty()
        } else {
            seq![cur]
        }
    } else {
        let c = s[0];
        if spec_is_split_char(c) {
            (if cur.len() == 0 {
                Seq::<Seq<char>>::empty()
            } else {
                seq![cur]
            }) + (if c == ',' {
                Seq::<Seq<char>>::empty()
            } else {
                seq![seq![c]]
            }) + spec_split(s.drop_first(), Seq::empty())
        } else {
            spec_split(s.drop_first(), cur.push(c))
        }
    }
}

/// The tokens of `s`: a partition of `s` in order, losing only commas,
/// with no empty token.
pub open spec fn spec_tokens(s: Seq<char>) -> Seq<Seq<char>> {
    spec_split(s, Seq::empty())
}

/// The character sequences of a list of tokens.
pub open spec fn views_of(ts: Seq<String>) -> Seq<Seq<char>> {
    ts.map_values(|t: String| t@)
}

/// Splits `s` into tokens, keeping the operator characters as tokens of
/// their own and dropping commas.
pub fn split_keep(s: &str) -> (r: Vec<String>)
    ensures
        views_of(r@) == spec_tokens(s@),
{
    let n = s.unicode_len();
    let mut result: Vec<String> = Vec::new();
    let mut last: usize = 0;
    let mut i: usize = 0;
    proof {
        assert(s@.skip(0) =~= s@);
        assert(s@.subrange(0, 0) =~= Seq::<char>::empty());
        assert(views_of(result@) =~= Seq::<Seq<char>>::empty());
        assert(views_of(result@) + spec_split(s@, Seq::empty()) =~= spec_tokens(s@));
    }
    #[verifier::loop_isolation(false)]
    while i < n
        invariant
            0 <= last <= i <= n,
            spec_tokens(s@) == views_of(result@) + spec_split(
                s@.skip(i as int),
                s@.subrange(last as int, i as int),
            ),
        decreases n - i,
    {
        let ghost cur = s@.subrange(last as int, i as int);
        let ghost rest = s@.skip(i as int);
        proof {
            assert(rest[0] == s@[i as int]);
            assert(rest.drop_first() =~= s@.skip(i as int + 1));
        }
        let c = s.get_char(i);
        if Operator::is_operator(c) || c == ',' {
            if last != i {
                let tok = String::from_str(s.substring_char(last, i));
                proof {
                    assert(views_of(result@.push(tok)) =~= views_of(result@) + seq![cur]);
                }
                result.push(tok);
            }
            if !(c == ',') {
                let tok = String::from_str(s.substring_char(i, i + 1));
                proof {
                    assert(tok@ =~= seq![s@[i as int]]);
                    assert(views_of(result@.push(tok)) =~= views_of(result@) + seq![tok@]);
                }
                result.push(tok);
            }
            last = i + 1;
            proof {
                assert(s@.subrange(last as int, i as int + 1) =~= Seq::<char>::empty());
                assert(spec_tokens(s@) =~= views_of(result@) + spec_split(
                    s@.skip(i as int + 1),
                    s@.subrange(last as int, i as int + 1),
                ));
            }
        } else {
            proof {
                assert(cur.push(s@[i as int]) =~= s@.subrange(last as int, i as int + 1));
            }
        }
        i = i + 1;
    }
    proof {
        assert(s@.skip(n as int) =~= Seq::<char>::empty());
    }
    if last < n {
        let tok = String::from_str(s.substring_char(last, n));
        proof {
            assert(views_of(result@.push(tok)) =~= views_of(result@) + seq![tok@]);
        }
        result.push(tok);
        proof {
            assert(views_of(result@) =~= spec_tokens(s@));
        }
    } else {
        proof {
            assert(s@.subrange(last as int, n as int) =~= Seq::<char>::empty());
            assert(views_of(result@) =~= spec_tokens(s@));
        }
    }
    result
}

} // verus!
