//! What holds of the library as a whole.

use vstd::prelude::*;
use crate::context::{
    apply, declares_evar, entry_wf, index_of, left_of, right_of, same_binder, type_wf, wf,
};
use crate::ctxmember::Member;
use crate::lemmas::{lemma_apply_idempotent, lemma_type_wf_mentions, lemma_wf_take};
use crate::rules::{rigid, solve, subtype};
use crate::soundness::{lemma_arrow_descends, lemma_subtype_keeps};
use crate::state::State;
use crate::surgery::lemma_split;
use crate::types::Ty;

verus! {

/// Cutting an entry out of a context and putting it back between the two
/// parts gives the context again.
pub proof fn law_hole_round_trip(ctx: Seq<Member>, m: Member)
    requires
        ctx.contains(m),
    ensures
        left_of(ctx, m).push(m) + right_of(ctx, m) == ctx,
{
    lemma_split(ctx, m);
    assert(left_of(ctx, m).push(m) + right_of(ctx, m) =~= left_of(ctx, m) + seq![m] + right_of(
        ctx,
        m,
    ));
}

/// Cutting two entries out of a context, the second right of the first, and
/// putting both back between the three parts gives the context again.
pub proof fn law_hole2_round_trip(ctx: Seq<Member>, m1: Member, m2: Member)
    requires
        ctx.contains(m1),
        right_of(ctx, m1).contains(m2),
    ensures
        left_of(ctx, m1).push(m1) + left_of(right_of(ctx, m1), m2).push(m2) + right_of(
            right_of(ctx, m1),
            m2,
        ) == ctx,
{
    let rest = right_of(ctx, m1);
    law_hole_round_trip(ctx, m1);
    law_hole_round_trip(rest, m2);
    let a = left_of(ctx, m1).push(m1);
    let b = left_of(rest, m2).push(m2);
    let c = right_of(rest, m2);
    assert(a + b + c =~= a + (b + c));
}

/// Solving an existential variable changes the one entry that declares it and
/// nothing else: every other entry stays where it is.
pub proof fn law_solve_in_place(s: State, alpha: Seq<char>, tau: Ty)
    requires
        s.ctx.contains(Member::EVar(alpha)),
    ensures
        solve(s, alpha, tau).ctx == s.ctx.update(
            index_of(s.ctx, Member::EVar(alpha)),
            Member::Solved(alpha, tau),
        ),
        solve(s, alpha, tau).next == s.next,
{
    lemma_split(s.ctx, Member::EVar(alpha));
    assert(solve(s, alpha, tau).ctx =~= s.ctx.update(
        index_of(s.ctx, Member::EVar(alpha)),
        Member::Solved(alpha, tau),
    ));
}

/// An entry that solves no existential variable of a type changes nothing in
/// what applying the context makes of the type.
pub proof fn lemma_apply_push(ctx: Seq<Member>, m: Member, t: Ty)
    requires
        m is Solved ==> !t.mentions_evar(m->Solved_0),
    ensures
        apply(ctx.push(m), t) == apply(ctx, t),
    decreases t,
{
    let c = ctx.push(m);
    assert(c.drop_last() =~= ctx);
    match t {
        Ty::Unit => {},
        Ty::Var(v) => {},
        Ty::EVar(a) => {},
        Ty::Arr(a, b) => {
            lemma_apply_push(ctx, m, *a);
            lemma_apply_push(ctx, m, *b);
        },
        Ty::All(v, b) => {
            lemma_apply_push(ctx, m, *b);
        },
    }
}

/// Under a well-formed context, a type whose existential variables are all
/// declared among the first `n` entries is touched by those entries only.
pub proof fn lemma_apply_prefix(ctx: Seq<Member>, n: int, t: Ty)
    requires
        wf(ctx),
        0 <= n <= ctx.len(),
        forall|beta: Seq<char>| t.mentions_evar(beta) ==> declares_evar(ctx.take(n), beta),
    ensures
        apply(ctx, t) == apply(ctx.take(n), t),
    decreases ctx.len() - n,
{
    if n == ctx.len() {
        assert(ctx.take(n) =~= ctx);
    } else {
        let pre = ctx.drop_last();
        let last = ctx.last();
        let k = ctx.len() - 1;
        lemma_wf_take(ctx, k);
        assert(ctx.take(k) =~= pre);
        assert(pre.take(n) =~= ctx.take(n));
        assert(ctx =~= pre.push(last));
        if last is Solved && t.mentions_evar(last->Solved_0) {
            let beta = last->Solved_0;
            let i = choose|i: int|
                0 <= i < ctx.take(n).len() && #[trigger] ctx.take(n)[i].declares_evar(beta);
            assert(ctx[i].declares_evar(beta));
            assert(!same_binder(ctx[i], ctx[k]));
        }
        lemma_apply_push(pre, last, t);
        lemma_apply_prefix(pre, n, t);
    }
}

/// Applying a well-formed context to a solved existential variable gives what
/// applying it to the solution gives.
pub proof fn law_apply_solution(ctx: Seq<Member>, alpha: Seq<char>, tau: Ty)
    requires
        wf(ctx),
        ctx.contains(Member::Solved(alpha, tau)),
    ensures
        apply(ctx, Ty::EVar(alpha)) == apply(ctx, tau),
{
    let m = Member::Solved(alpha, tau);
    let i = choose|i: int| 0 <= i < ctx.len() && ctx[i] == m;
    let upto = ctx.take(i + 1);
    lemma_wf_take(ctx, i + 1);
    assert(upto.drop_last() =~= ctx.take(i));
    assert(upto.last() == m);
    assert(apply(upto, Ty::EVar(alpha)) == apply(ctx.take(i), tau));
    assert(entry_wf(ctx, i));
    assert forall|beta: Seq<char>| tau.mentions_evar(beta) implies declares_evar(
        ctx.take(i),
        beta,
    ) by {
        lemma_type_wf_mentions(ctx.take(i), tau, beta);
    }
    lemma_apply_prefix(ctx, i, tau);
    assert(upto[i].declares_evar(alpha));
    lemma_apply_prefix(ctx, i + 1, Ty::EVar(alpha));
}

/// Applying a well-formed context to a monotype gives a monotype.
pub proof fn lemma_apply_mono(ctx: Seq<Member>, t: Ty)
    requires
        wf(ctx),
        t.is_mono(),
    ensures
        apply(ctx, t).is_mono(),
    decreases ctx.len(), t,
{
    match t {
        Ty::Unit => {},
        Ty::Var(v) => {},
        Ty::EVar(a) => {
            if ctx.len() > 0 {
                let k = ctx.len() - 1;
                lemma_wf_take(ctx, k);
                assert(ctx.take(k) =~= ctx.drop_last());
                if ctx.last() is Solved && ctx.last()->Solved_0 == a {
                    assert(entry_wf(ctx, k));
                    lemma_apply_mono(ctx.drop_last(), ctx.last()->Solved_1);
                } else {
                    lemma_apply_mono(ctx.drop_last(), t);
                }
            }
        },
        Ty::Arr(a, b) => {
            lemma_apply_mono(ctx, *a);
            lemma_apply_mono(ctx, *b);
        },
        Ty::All(v, b) => {},
    }
}

/// The rule for function types, on a well-formed state: the domains are
/// compared in the opposite direction, then the codomains with the resulting
/// context applied to both.
pub proof fn law_arrow_rule(s: State, a1: Ty, a2: Ty, b1: Ty, b2: Ty)
    requires
        s.wf(),
    ensures
        subtype(s, Ty::Arr(Box::new(a1), Box::new(a2)), Ty::Arr(Box::new(b1), Box::new(b2)))
            == match subtype(s, b1, a1) {
            None => None,
            Some(s1) => subtype(s1, apply(s1.ctx, a2), apply(s1.ctx, b2)),
        },
{
    let a = Ty::Arr(Box::new(a1), Box::new(a2));
    let b = Ty::Arr(Box::new(b1), Box::new(b2));
    lemma_arrow_descends(s, a, b);
}

/// Reflexivity on monotypes, whether well formed or not.
proof fn lemma_reflexive(s: State, t: Ty)
    requires
        s.wf(),
        t.is_mono(),
    ensures
        subtype(s, t, t) == Some(s),
    decreases apply(s.ctx, t).size(),
{
    match t {
        Ty::Arr(t1, t2) => {
            lemma_reflexive(s, *t1);
            law_arrow_rule(s, *t1, *t2, *t1, *t2);
            let u = apply(s.ctx, *t2);
            lemma_apply_mono(s.ctx, *t2);
            lemma_apply_idempotent(s.ctx, *t2);
            lemma_reflexive(s, u);
        },
        _ => {},
    }
}

/// Reflexivity: under a well-formed state, a well-formed type without
/// quantifiers is a subtype of itself, and the judgment leaves the state as it
/// is.
pub proof fn law_reflexive(s: State, t: Ty)
    requires
        s.wf(),
        type_wf(s.ctx, t),
        t.is_mono(),
    ensures
        subtype(s, t, t) == Some(s),
{
    lemma_reflexive(s, t);
}

/// What a successful judgment keeps: the state that it yields is well formed,
/// its counter has not gone back, its context has the rigid variables,
/// assumptions and markers of the context it started from, in their order,
/// and applying its context to either of the two types a second time changes
/// nothing.
pub proof fn law_context_monotone(s: State, a: Ty, b: Ty)
    requires
        s.wf(),
        subtype(s, a, b) is Some,
    ensures
        ({
            let r = subtype(s, a, b)->Some_0;
            &&& r.wf()
            &&& r.next >= s.next
            &&& rigid(r.ctx) == rigid(s.ctx)
            &&& apply(r.ctx, apply(r.ctx, a)) == apply(r.ctx, a)
            &&& apply(r.ctx, apply(r.ctx, b)) == apply(r.ctx, b)
        }),
{
    lemma_subtype_keeps(s, a, b);
    let r = subtype(s, a, b)->Some_0;
    lemma_apply_idempotent(r.ctx, a);
    lemma_apply_idempotent(r.ctx, b);
}

/// The occurs check: an existential variable is never a subtype or a
/// supertype of a monotype in which it occurs, unless the monotype is the
/// variable itself.
pub proof fn law_occurs_check(s: State, alpha: Seq<char>, tau: Ty)
    requires
        tau.is_mono(),
        tau.mentions_evar(alpha),
        tau != Ty::EVar(alpha),
    ensures
        subtype(s, Ty::EVar(alpha), tau) is None,
        subtype(s, tau, Ty::EVar(alpha)) is None,
{
}

/// Predicativity: no judgment on a well-formed state leaves an existential
/// variable solved to a type with a quantifier in it.
pub proof fn law_predicative(s: State, a: Ty, b: Ty, alpha: Seq<char>, tau: Ty)
    requires
        s.wf(),
        subtype(s, a, b) is Some,
        subtype(s, a, b)->Some_0.ctx.contains(Member::Solved(alpha, tau)),
    ensures
        tau.is_mono(),
{
    lemma_subtype_keeps(s, a, b);
    let r = subtype(s, a, b)->Some_0;
    let i = choose|i: int| 0 <= i < r.ctx.len() && r.ctx[i] == Member::Solved(alpha, tau);
    assert(entry_wf(r.ctx, i));
}

} // verus!
