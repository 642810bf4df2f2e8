//! The renderer: folds a token sequence against the data dictionary into a
//! finished string. Literals are copied verbatim; variables are replaced by
//! their bound value, once, left to right, without re-scanning the value.
//! The first unbound variable fails the whole render.

use vstd::prelude::*;

use crate::dict::Dict;
use crate::error::Error;
use crate::tokenize::{parse_tmpl, spec_tokenize, Token, TokenV};

verus! {

use vstd::string::StringExecFns;

/// What rendering a token sequence against a mapping yields: the finished
/// text, or the name of the first unbound variable, left to right.
pub open spec fn spec_render(ts: Seq<TokenV>, m: Map<Seq<char>, Seq<char>>) -> Result<
    Seq<char>,
    Seq<char>,
>
    decreases ts.len(),
{
    if ts.len() == 0 {
        Ok(Seq::empty())
    } else {
        match ts[0] {
            TokenV::Val(t) => match spec_render(ts.drop_first(), m) {
                Ok(rest) => Ok(t + rest),
                Err(e) => Err(e),
            },
            TokenV::Var(n) => if m.contains_key(n) {
                match spec_render(ts.drop_first(), m) {
                    Ok(rest) => Ok(m[n] + rest),
                    Err(e) => Err(e),
                }
            } else {
                Err(n)
            },
        }
    }
}

/// The concatenation of a token sequence's texts, each variable replaced by
/// its value, left to right. Meaningful when every variable is bound.
pub open spec fn subst_all(ts: Seq<TokenV>, m: Map<Seq<char>, Seq<char>>) -> Seq<char>
    decreases ts.len(),
{
    if ts.len() == 0 {
        Seq::empty()
    } else {
        (match ts[0] {
            TokenV::Val(t) => t,
            TokenV::Var(n) => m[n],
        }) + subst_all(ts.drop_first(), m)
    }
}

/// Render totality: when the dictionary binds every variable the tokens
/// reference, rendering never fails, and the output is the literal
/// concatenation with each substitution applied once, left to right.
pub proof fn lemma_render_total(ts: Seq<TokenV>, m: Map<Seq<char>, Seq<char>>)
    requires
        forall|i: int|
            0 <= i < ts.len() && (#[trigger] ts[i]) is Var ==> m.contains_key(ts[i]->Var_0),
    ensures
        spec_render(ts, m) == Ok::<Seq<char>, Seq<char>>(subst_all(ts, m)),
    decreases ts.len(),
{
    if ts.len() > 0 {
        assert forall|i: int|
            0 <= i < ts.drop_first().len() && (#[trigger] ts.drop_first()[i]) is Var implies m.contains_key(
            ts.drop_first()[i]->Var_0,
        ) by {
            assert(ts.drop_first()[i] == ts[i + 1]);
        }
        lemma_render_total(ts.drop_first(), m);
    }
}

/// Render failure: when the first unbound variable among the tokens stands
/// at position `k`, rendering fails with exactly that variable's name.
pub proof fn lemma_render_first_missing(ts: Seq<TokenV>, m: Map<Seq<char>, Seq<char>>, k: int)
    requires
        0 <= k < ts.len(),
        ts[k] is Var,
        !m.contains_key(ts[k]->Var_0),
        forall|j: int|
            0 <= j < k && (#[trigger] ts[j]) is Var ==> m.contains_key(ts[j]->Var_0),
    ensures
        spec_render(ts, m) == Err::<Seq<char>, Seq<char>>(ts[k]->Var_0),
    decreases k,
{
    if k > 0 {
        assert forall|j: int|
            0 <= j < k - 1 && (#[trigger] ts.drop_first()[j]) is Var implies m.contains_key(
            ts.drop_first()[j]->Var_0,
        ) by {
            assert(ts.drop_first()[j] == ts[j + 1]);
        }
        assert(ts.drop_first()[k - 1] == ts[k]);
        lemma_render_first_missing(ts.drop_first(), m, k - 1);
    }
}

/// Render a template source text against the dictionary: tokenize it, then
/// substitute every variable. Returns the finished string, or the name of
/// the first unresolved variable as a [`Error::VariableNotFound`].
pub fn render(tmpl: &str, data: &Dict) -> (r: Result<String, Error>)
    requires
        data.wf(),
    ensures
        match spec_render(spec_tokenize(tmpl@), data@) {
            Ok(out) => r matches Ok(s) && s@ == out,
            Err(n) => r matches Err(Error::VariableNotFound(v)) && v@ == n,
        },
{
    let tokens = parse_tmpl(tmpl);
    let ghost ts = tokens.deep_view();
    let mut acc = String::new();
    let mut i: usize = 0;
    proof {
        assert(ts.skip(0) =~= ts);
        if spec_render(ts, data@) is Ok {
            assert(acc@ + spec_render(ts, data@)->Ok_0 =~= spec_render(ts, data@)->Ok_0);
        }
    }
    while i < tokens.len()
        invariant
            data.wf(),
            i <= tokens@.len(),
            ts == tokens.deep_view(),
            ts == spec_tokenize(tmpl@),
            spec_render(ts, data@) == (match spec_render(ts.skip(i as int), data@) {
                Ok(rest) => Ok::<Seq<char>, Seq<char>>(acc@ + rest),
                Err(e) => Err::<Seq<char>, Seq<char>>(e),
            }),
        decreases tokens@.len() - i,
    {
        proof {
            assert(ts.skip(i as int)[0] == ts[i as int]);
            assert(ts.skip(i as int).drop_first() =~= ts.skip(i + 1));
        }
        let ghost acc0 = acc@;
        match &tokens[i] {
            Token::Val(t) => {
                acc.append(t.as_str());
                proof {
                    if spec_render(ts.skip(i + 1), data@) is Ok {
                        assert(acc0 + (t@ + spec_render(ts.skip(i + 1), data@)->Ok_0) =~= (acc0
                            + t@) + spec_render(ts.skip(i + 1), data@)->Ok_0);
                    }
                }
            },
            Token::Var(n) => {
                match data.get(n) {
                    Some(v) => {
                        acc.append(v.as_str());
                        proof {
                            if spec_render(ts.skip(i + 1), data@) is Ok {
                                assert(acc0 + (data@[n@] + spec_render(
                                    ts.skip(i + 1),
                                    data@,
                                )->Ok_0) =~= (acc0 + data@[n@]) + spec_render(
                                    ts.skip(i + 1),
                                    data@,
                                )->Ok_0);
                            }
                        }
                    },
                    None => {
                        return Err(Error::VariableNotFound(n.clone()));
                    },
                }
            },
        }
        i = i + 1;
    }
    proof {
        assert(ts.skip(i as int) =~= Seq::<TokenV>::empty());
        assert(acc@ + Seq::<char>::empty() =~= acc@);
    }
    Ok(acc)
}

} // verus!
