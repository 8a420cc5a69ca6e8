//! The subtyping engine: the judgment of `rules`, computed.

use vstd::prelude::*;
use crate::context::Context;
use crate::ctxmember::{CtxMember, Member};
use crate::rules::{
    articulate, budget, cut, fresh_arrow, solvable, solve, subtype, unsolved, weight,
};
use crate::soundness::{
    lemma_articulate, lemma_arrow_descends, lemma_declare_behind_marker, lemma_push_fresh,
    lemma_subtype_keeps,
};
use crate::state::{CheckState, State};
use crate::surgery::lemma_cut_rigid;
use crate::types::{TEVar, Type};

verus! {

/// The model of the outcome of a judgment.
pub open spec fn outcome(r: Option<CheckState>) -> Option<State> {
    match r {
        Some(s) => Some(s@),
        None => None,
    }
}

/// Whether the existential variable `alpha` can be solved to `tau` under
/// `ctx`.
fn can_solve(ctx: &Context, alpha: &TEVar, tau: &Type) -> (r: bool)
    ensures
        r == solvable(ctx@, alpha@, tau@),
{
    if !tau.is_mono() || tau.mentions(alpha) {
        return false;
    }
    match ctx.clone().hole(&CtxMember::EVar(alpha.clone())) {
        Some((left, _)) => left.well_formed(tau),
        None => false,
    }
}

/// The state with the declaration of `alpha` turned into its solution `tau`.
fn solved(s: CheckState, alpha: &TEVar, tau: &Type) -> (r: CheckState)
    requires
        s@.ctx.contains(Member::EVar(alpha@)),
    ensures
        r@ == solve(s@, alpha@, tau@),
{
    let CheckState { ctx, nextEVar } = s;
    let (left, right) = ctx.hole(&CtxMember::EVar(alpha.clone())).unwrap();
    let ctx = left.add(CtxMember::Solved(alpha.clone(), tau.clone())).append(right);
    let r = CheckState { ctx, nextEVar };
    assert(r@.ctx =~= solve(s@, alpha@, tau@).ctx);
    r
}

/// The state with the declaration of `alpha` replaced by two fresh
/// existential variables and the solution of `alpha` to the function type
/// between them, and that function type.
fn articulated(s: CheckState, alpha: &TEVar) -> (r: (CheckState, Type))
    requires
        s@.ctx.contains(Member::EVar(alpha@)),
        s@.next + 2 <= usize::MAX,
    ensures
        r.0@ == articulate(s@, alpha@),
        r.1@ == fresh_arrow(s@),
{
    let mut s = s;
    let ghost s0 = s@;
    let a1 = s.fresh_evar();
    let a2 = s.fresh_evar();
    let CheckState { ctx, nextEVar } = s;
    let (left, right) = ctx.hole(&CtxMember::EVar(alpha.clone())).unwrap();
    let arrow = Type::Arr(Box::new(Type::EVar(a1.clone())), Box::new(Type::EVar(a2.clone())));
    assert(arrow@ == fresh_arrow(s0)) by {
        reveal_with_fuel(Type::model, 2);
    }
    let ctx = left.add(CtxMember::EVar(a1)).add(CtxMember::EVar(a2)).add(
        CtxMember::Solved(alpha.clone(), arrow.clone()),
    ).append(right);
    let r = CheckState { ctx, nextEVar };
    assert(r@.ctx =~= articulate(s0, alpha@).ctx);
    (r, arrow)
}

/// The state with its context cut off at the first occurrence of `m`.
fn cut_at(s: CheckState, m: &CtxMember) -> (r: CheckState)
    requires
        s@.ctx.contains(m@),
    ensures
        r@ == cut(s@, m@),
{
    let CheckState { ctx, nextEVar } = s;
    let (left, _) = ctx.hole(m).unwrap();
    CheckState { ctx: left, nextEVar }
}

/// The judgment on borrowed types.
fn compare(s: CheckState, a: &Type, b: &Type) -> (r: Option<CheckState>)
    requires
        s@.wf(),
    ensures
        outcome(r) == subtype(s@, a@, b@),
    decreases budget(s@), unsolved(s@.ctx), weight(s@, a@, b@),
{
    let ghost s0 = s@;
    match (a, b) {
        (Type::Unit, Type::Unit) => {
            return Some(s);
        },
        (Type::Var(x), Type::Var(y)) => {
            if *x == *y {
                return Some(s);
            }
            return None;
        },
        (Type::EVar(x), Type::EVar(y)) => {
            if *x == *y {
                return Some(s);
            }
        },
        (Type::Arr(a1, a2), Type::Arr(b1, b2)) => {
            proof {
                lemma_subtype_keeps(s0, b1@, a1@);
                lemma_arrow_descends(s0, a@, b@);
            }
            let s1 = match compare(s, b1, a1) {
                Some(s1) => s1,
                None => {
                    return None;
                },
            };
            let a2 = s1.ctx.apply_context((**a2).clone());
            let b2 = s1.ctx.apply_context((**b2).clone());
            return compare(s1, &a2, &b2);
        },
        _ => {},
    }
    if let Type::All(v, body) = b {
        if s.nextEVar == usize::MAX {
            return None;
        }
        let mut s = s;
        let name = s.fresh_evar();
        let CheckState { ctx, nextEVar } = s;
        let entry = CtxMember::Var(name.clone());
        let inner = CheckState { ctx: ctx.add(entry.clone()), nextEVar };
        let body = body.subst(v, &Type::Var(name));
        proof {
            lemma_push_fresh(s0.ctx, s0.next, entry@);
            lemma_subtype_keeps(inner@, a@, body@);
        }
        return match compare(inner, a, &body) {
            Some(s1) => {
                proof {
                    assert(inner@.ctx.drop_last() =~= s0.ctx);
                    lemma_cut_rigid(s0.ctx, s1@.ctx, entry@);
                }
                Some(cut_at(s1, &entry))
            },
            None => None,
        };
    }
    if let Type::All(v, body) = a {
        if s.nextEVar == usize::MAX {
            return None;
        }
        let mut s = s;
        let name = s.fresh_evar();
        let CheckState { ctx, nextEVar } = s;
        let marker = CtxMember::Marker(name.clone());
        let inner = CheckState {
            ctx: ctx.add(marker.clone()).add(CtxMember::EVar(name.clone())),
            nextEVar,
        };
        let body = body.subst(v, &Type::EVar(name));
        proof {
            lemma_push_fresh(s0.ctx, s0.next, marker@);
            lemma_declare_behind_marker(s0, marker@->Marker_0);
            lemma_subtype_keeps(inner@, body@, b@);
        }
        return match compare(inner, &body, b) {
            Some(s1) => {
                proof {
                    assert(inner@.ctx.drop_last() =~= s0.ctx.push(marker@));
                    assert(s0.ctx.push(marker@).drop_last() =~= s0.ctx);
                    assert(crate::rules::rigid(inner@.ctx) == crate::rules::rigid(s0.ctx).push(
                        marker@,
                    )) by {
                        reveal_with_fuel(crate::rules::rigid, 3);
                    }
                    lemma_cut_rigid(s0.ctx, s1@.ctx, marker@);
                }
                Some(cut_at(s1, &marker))
            },
            None => None,
        };
    }
    match (a, b) {
        (Type::EVar(alpha), Type::Arr(_, _)) => {
            if b.mentions(alpha) || !s.ctx.elem(&CtxMember::EVar(alpha.clone())) || s.nextEVar
                > usize::MAX - 2 {
                return None;
            }
            proof {
                lemma_articulate(s0, alpha@);
            }
            let (inner, arrow) = articulated(s, alpha);
            return compare(inner, &arrow, b);
        },
        (Type::Arr(_, _), Type::EVar(alpha)) => {
            if a.mentions(alpha) || !s.ctx.elem(&CtxMember::EVar(alpha.clone())) || s.nextEVar
                > usize::MAX - 2 {
                return None;
            }
            proof {
                lemma_articulate(s0, alpha@);
            }
            let (inner, arrow) = articulated(s, alpha);
            return compare(inner, a, &arrow);
        },
        _ => {},
    }
    if let Type::EVar(alpha) = a {
        if can_solve(&s.ctx, alpha, b) {
            return Some(solved(s, alpha, b));
        }
    }
    if let Type::EVar(beta) = b {
        if can_solve(&s.ctx, beta, a) {
            return Some(solved(s, beta, a));
        }
    }
    None
}

/// Decides whether `a` is a subtype of `b` under the state `s`. Where it is,
/// the result is the state that the judgment leads to: `s` with what was
/// learned about its existential variables, and with the counter moved past
/// the fresh names that were used. Where it is not, or where the counter
/// cannot give the fresh names that the judgment needs, there is no result.
pub fn is_subtype(s: CheckState, a: Type, b: Type) -> (r: Option<CheckState>)
    requires
        s@.wf(),
    ensures
        outcome(r) == subtype(s@, a@, b@),
        r matches Some(t) ==> t@.wf(),
{
    proof {
        lemma_subtype_keeps(s@, a@, b@);
    }
    compare(s, &a, &b)
}

} // verus!
