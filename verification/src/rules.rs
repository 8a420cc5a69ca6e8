//! The subtyping judgment, stated as a function on the mathematical model.
//!
//! `subtype(s, a, b)` is the state that results from establishing that `a` is
//! a subtype of `b` under the state `s`, or nothing where the judgment does
//! not hold. The rules are tried in the order in which they stand; the first
//! whose shape fits decides.

use vstd::prelude::*;
use crate::context::{apply, left_of, right_of, type_wf};
use crate::ctxmember::Member;
use crate::state::{fresh_name, State};
use crate::types::Ty;

verus! {

/// The number of existential variables that `ctx` declares and has not solved.
pub open spec fn unsolved(ctx: Seq<Member>) -> nat
    decreases ctx.len(),
{
    if ctx.len() == 0 {
        0
    } else if ctx.last() is EVar {
        unsolved(ctx.drop_last()) + 1
    } else {
        unsolved(ctx.drop_last())
    }
}

/// The entries of `ctx` that are not declarations of existential variables:
/// rigid variables, assumptions and markers, in their order.
pub open spec fn rigid(ctx: Seq<Member>) -> Seq<Member>
    decreases ctx.len(),
{
    if ctx.len() == 0 {
        Seq::empty()
    } else if ctx.last().is_existential() {
        rigid(ctx.drop_last())
    } else {
        rigid(ctx.drop_last()).push(ctx.last())
    }
}

/// How many fresh names the counter of `s` can still give.
pub open spec fn budget(s: State) -> nat {
    if s.next <= usize::MAX {
        (usize::MAX - s.next) as nat
    } else {
        0
    }
}

/// The size of `a` and `b` once the context of `s` is applied to them.
pub open spec fn weight(s: State, a: Ty, b: Ty) -> nat {
    apply(s.ctx, a).size() + apply(s.ctx, b).size()
}

/// The order in which the judgment descends: a question is smaller than
/// another where fewer fresh names are left; or as many, and fewer
/// existential variables are unsolved; or as many of both, and the types are
/// smaller once the context is applied.
pub open spec fn descends(s: State, a: Ty, b: Ty, s1: State, a1: Ty, b1: Ty) -> bool {
    ||| budget(s1) < budget(s)
    ||| budget(s1) == budget(s) && unsolved(s1.ctx) < unsolved(s.ctx)
    ||| budget(s1) == budget(s) && unsolved(s1.ctx) == unsolved(s.ctx) && weight(s1, a1, b1)
        < weight(s, a, b)
}

/// `ctx` with the entries `mid` in place of the first occurrence of `m`.
pub open spec fn splice(ctx: Seq<Member>, m: Member, mid: Seq<Member>) -> Seq<Member> {
    left_of(ctx, m) + mid + right_of(ctx, m)
}

/// Whether the existential variable `alpha` can be solved to `tau` in `ctx`:
/// `tau` is a monotype in which `alpha` does not occur, `alpha` is declared
/// and unsolved, and `tau` is well formed under the entries left of that
/// declaration.
pub open spec fn solvable(ctx: Seq<Member>, alpha: Seq<char>, tau: Ty) -> bool {
    &&& tau.is_mono()
    &&& !tau.mentions_evar(alpha)
    &&& ctx.contains(Member::EVar(alpha))
    &&& type_wf(left_of(ctx, Member::EVar(alpha)), tau)
}

/// The state `s` with the declaration of `alpha` turned into its solution
/// `tau`, at the same position.
pub open spec fn solve(s: State, alpha: Seq<char>, tau: Ty) -> State {
    State {
        ctx: splice(s.ctx, Member::EVar(alpha), seq![Member::Solved(alpha, tau)]),
        next: s.next,
    }
}

/// Whether the existential variable `alpha` can be given the shape of a
/// function type that stands against `other`: `alpha` does not occur in
/// `other`, it is declared and unsolved, and the counter can give two names.
pub open spec fn articulable(s: State, alpha: Seq<char>, other: Ty) -> bool {
    &&& !other.mentions_evar(alpha)
    &&& s.ctx.contains(Member::EVar(alpha))
    &&& s.next + 2 <= usize::MAX
}

/// The function type from the first to the second of the two fresh
/// existential variables that `s` gives next.
pub open spec fn fresh_arrow(s: State) -> Ty {
    Ty::Arr(
        Box::new(Ty::EVar(fresh_name(s.next))),
        Box::new(Ty::EVar(fresh_name(s.next + 1))),
    )
}

/// The state `s` with the declaration of `alpha` replaced, at the same
/// position, by the declarations of two fresh existential variables and the
/// solution of `alpha` to the function type between them.
pub open spec fn articulate(s: State, alpha: Seq<char>) -> State {
    State {
        ctx: splice(
            s.ctx,
            Member::EVar(alpha),
            seq![
                Member::EVar(fresh_name(s.next)),
                Member::EVar(fresh_name(s.next + 1)),
                Member::Solved(alpha, fresh_arrow(s)),
            ],
        ),
        next: s.next + 2,
    }
}

/// The state `s` with its context cut off at the first occurrence of `m`:
/// what was learned left of `m` stays, `m` and all right of it goes.
pub open spec fn cut(s: State, m: Member) -> State {
    State { ctx: left_of(s.ctx, m), next: s.next }
}

/// The subtyping judgment.
///
/// 1. The unit type is a subtype of itself.
/// 2. A rigid variable is a subtype of itself.
/// 3. An existential variable is a subtype of itself.
/// 4. Function types: the domains are compared in the opposite direction;
///    then the codomains, with the context that resulted applied to both.
/// 5. A quantifier on the right: its body is compared under a fresh rigid
///    variable, and the context is cut off at that variable afterwards.
/// 6. A quantifier on the left: its body is compared with a fresh existential
///    variable in place of the bound one, declared behind a marker, and the
///    context is cut off at the marker afterwards.
/// 7. An existential variable against a function type: the variable is given
///    the shape of a function type between two fresh existential variables,
///    and that type is compared in its place.
/// 8. An existential variable against a monotype: the variable is solved to
///    it, the left side before the right side.
/// 9. Nothing else is a subtype of anything.
///
/// For function types the second comparison is made only if it `descends`
/// from the question asked, which is what makes this a definition. On a
/// well-formed state it always does: see `lemma_arrow_descends`, and
/// `law_arrow_rule` for the rule without that proviso. Where the counter
/// cannot give the fresh names that a rule needs, the judgment does not hold.
pub open spec fn subtype(s: State, a: Ty, b: Ty) -> Option<State>
    decreases budget(s), unsolved(s.ctx), weight(s, a, b),
{
    if a is Unit && b is Unit {
        Some(s)
    } else if a is Var && b is Var && a->Var_0 == b->Var_0 {
        Some(s)
    } else if a is EVar && b is EVar && a->EVar_0 == b->EVar_0 {
        Some(s)
    } else if a is Arr && b is Arr {
        match subtype(s, *b->Arr_0, *a->Arr_0) {
            None => None,
            Some(s1) => {
                let a2 = apply(s1.ctx, *a->Arr_1);
                let b2 = apply(s1.ctx, *b->Arr_1);
                if descends(s, a, b, s1, a2, b2) {
                    subtype(s1, a2, b2)
                } else {
                    None
                }
            },
        }
    } else if b is All {
        if s.next < usize::MAX {
            let v = Member::Var(fresh_name(s.next));
            let s0 = State { ctx: s.ctx.push(v), next: s.next + 1 };
            let body = b->All_1.subst(b->All_0, Ty::Var(fresh_name(s.next)));
            match subtype(s0, a, body) {
                None => None,
                Some(s1) => Some(cut(s1, v)),
            }
        } else {
            None
        }
    } else if a is All {
        if s.next < usize::MAX {
            let alpha = fresh_name(s.next);
            let s0 = State {
                ctx: s.ctx.push(Member::Marker(alpha)).push(Member::EVar(alpha)),
                next: s.next + 1,
            };
            let body = a->All_1.subst(a->All_0, Ty::EVar(alpha));
            match subtype(s0, body, b) {
                None => None,
                Some(s1) => Some(cut(s1, Member::Marker(alpha))),
            }
        } else {
            None
        }
    } else if a is EVar && b is Arr {
        if articulable(s, a->EVar_0, b) {
            subtype(articulate(s, a->EVar_0), fresh_arrow(s), b)
        } else {
            None
        }
    } else if a is Arr && b is EVar {
        if articulable(s, b->EVar_0, a) {
            subtype(articulate(s, b->EVar_0), a, fresh_arrow(s))
        } else {
            None
        }
    } else if a is EVar && solvable(s.ctx, a->EVar_0, b) {
        Some(solve(s, a->EVar_0, b))
    } else if b is EVar && solvable(s.ctx, b->EVar_0, a) {
        Some(solve(s, b->EVar_0, a))
    } else {
        None
    }
}

} // verus!
