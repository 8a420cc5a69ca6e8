//! Facts about contexts: how counting and well-formedness behave under
//! concatenation and prefixes, and what applying a context does.

use vstd::prelude::*;
use crate::context::{apply, declares_evar, entry_wf, same_binder, type_wf, wf};
use crate::ctxmember::Member;
use crate::rules::{rigid, unsolved};
use crate::types::Ty;

verus! {

/// The unsolved declarations of a concatenation are those of its parts.
pub proof fn lemma_unsolved_concat(a: Seq<Member>, b: Seq<Member>)
    ensures
        unsolved(a + b) == unsolved(a) + unsolved(b),
    decreases b.len(),
{
    if b.len() == 0 {
        assert(a + b =~= a);
    } else {
        assert((a + b).drop_last() =~= a + b.drop_last());
        assert((a + b).last() == b.last());
        lemma_unsolved_concat(a, b.drop_last());
    }
}

/// The rigid entries of a concatenation are those of its parts, in order.
pub proof fn lemma_rigid_concat(a: Seq<Member>, b: Seq<Member>)
    ensures
        rigid(a + b) == rigid(a) + rigid(b),
    decreases b.len(),
{
    if b.len() == 0 {
        assert(a + b =~= a);
        assert(rigid(a) + rigid(b) =~= rigid(a));
    } else {
        assert((a + b).drop_last() =~= a + b.drop_last());
        assert((a + b).last() == b.last());
        lemma_rigid_concat(a, b.drop_last());
        if !b.last().is_existential() {
            assert(rigid(a + b) =~= rigid(a) + rigid(b));
        }
    }
}

/// The rigid entries of a context are its entries that are no declarations
/// of existential variables.
pub proof fn lemma_rigid_members(ctx: Seq<Member>, m: Member)
    ensures
        rigid(ctx).contains(m) <==> ctx.contains(m) && !m.is_existential(),
    decreases ctx.len(),
{
    if ctx.len() == 0 {
    } else {
        let pre = ctx.drop_last();
        let last = ctx.last();
        lemma_rigid_members(pre, m);
        assert(ctx =~= pre.push(last));
        if rigid(ctx).contains(m) {
            let i = choose|i: int| 0 <= i < rigid(ctx).len() && rigid(ctx)[i] == m;
            if last.is_existential() {
                assert(rigid(pre).contains(m));
            } else if i < rigid(pre).len() {
                assert(rigid(pre)[i] == m);
                assert(rigid(pre).contains(m));
            } else {
                assert(m == last);
            }
            if m == last {
                assert(ctx[ctx.len() - 1] == m);
            } else {
                let j = choose|j: int| 0 <= j < pre.len() && pre[j] == m;
                assert(ctx[j] == m);
            }
        }
        if ctx.contains(m) && !m.is_existential() {
            let j = choose|j: int| 0 <= j < ctx.len() && ctx[j] == m;
            if j < pre.len() {
                assert(pre[j] == m);
                assert(pre.contains(m));
                assert(rigid(pre).contains(m));
                let i = choose|i: int| 0 <= i < rigid(pre).len() && rigid(pre)[i] == m;
                if last.is_existential() {
                    assert(rigid(ctx)[i] == m);
                } else {
                    assert(rigid(ctx)[i] == m);
                }
            } else {
                assert(last == m);
                assert(rigid(ctx).last() == m);
            }
        }
    }
}

/// A prefix of a well-formed context is well formed.
pub proof fn lemma_wf_take(ctx: Seq<Member>, n: int)
    requires
        wf(ctx),
        0 <= n <= ctx.len(),
    ensures
        wf(ctx.take(n)),
{
    let pre = ctx.take(n);
    assert forall|i: int| 0 <= i < pre.len() implies #[trigger] entry_wf(pre, i) by {
        assert(entry_wf(ctx, i));
        assert(pre.take(i) =~= ctx.take(i));
    }
    assert forall|i: int, j: int| 0 <= i < j < pre.len() implies !#[trigger] same_binder(
        pre[i],
        pre[j],
    ) by {
        assert(!same_binder(ctx[i], ctx[j]));
    }
}

/// Well-formedness of a type looks only at which rigid and existential
/// variables a context declares: a context that declares at least those of
/// another accepts at least the types of the other.
pub proof fn lemma_type_wf_transfer(c1: Seq<Member>, c2: Seq<Member>, t: Ty)
    requires
        type_wf(c1, t),
        forall|v: Seq<char>| c1.contains(Member::Var(v)) ==> c2.contains(Member::Var(v)),
        forall|a: Seq<char>| declares_evar(c1, a) ==> declares_evar(c2, a),
    ensures
        type_wf(c2, t),
    decreases t,
{
    match t {
        Ty::Unit => {},
        Ty::Var(v) => {},
        Ty::EVar(a) => {},
        Ty::Arr(a, b) => {
            lemma_type_wf_transfer(c1, c2, *a);
            lemma_type_wf_transfer(c1, c2, *b);
        },
        Ty::All(v, b) => {
            let d1 = c1.push(Member::Var(v));
            let d2 = c2.push(Member::Var(v));
            assert forall|w: Seq<char>| d1.contains(Member::Var(w)) implies d2.contains(
                Member::Var(w),
            ) by {
                let i = choose|i: int| 0 <= i < d1.len() && d1[i] == Member::Var(w);
                if i < c1.len() {
                    assert(c1[i] == Member::Var(w));
                    assert(c1.contains(Member::Var(w)));
                    let j = choose|j: int| 0 <= j < c2.len() && c2[j] == Member::Var(w);
                    assert(d2[j] == Member::Var(w));
                } else {
                    assert(d2[c2.len() as int] == Member::Var(w));
                }
            }
            assert forall|a: Seq<char>| declares_evar(d1, a) implies declares_evar(d2, a) by {
                let i = choose|i: int| 0 <= i < d1.len() && #[trigger] d1[i].declares_evar(a);
                assert(c1[i].declares_evar(a));
                assert(declares_evar(c1, a));
                let j = choose|j: int| 0 <= j < c2.len() && #[trigger] c2[j].declares_evar(a);
                assert(d2[j].declares_evar(a));
            }
            lemma_type_wf_transfer(d1, d2, *b);
        },
    }
}

/// A type that is well formed under a context mentions only existential
/// variables that the context declares.
pub proof fn lemma_type_wf_mentions(ctx: Seq<Member>, t: Ty, beta: Seq<char>)
    requires
        type_wf(ctx, t),
        t.mentions_evar(beta),
    ensures
        declares_evar(ctx, beta),
    decreases t,
{
    match t {
        Ty::Unit => {},
        Ty::Var(v) => {},
        Ty::EVar(a) => {},
        Ty::Arr(a, b) => {
            if a.mentions_evar(beta) {
                lemma_type_wf_mentions(ctx, *a, beta);
            } else {
                lemma_type_wf_mentions(ctx, *b, beta);
            }
        },
        Ty::All(v, b) => {
            let d = ctx.push(Member::Var(v));
            lemma_type_wf_mentions(d, *b, beta);
            let i = choose|i: int| 0 <= i < d.len() && #[trigger] d[i].declares_evar(beta);
            assert(ctx[i].declares_evar(beta));
        },
    }
}

/// Whether `ctx` holds a solution of the existential variable `beta`.
pub open spec fn solves(ctx: Seq<Member>, beta: Seq<char>) -> bool {
    exists|i: int| 0 <= i < ctx.len() && (#[trigger] ctx[i]) is Solved && ctx[i]->Solved_0 == beta
}

/// Applying a context leaves a type as it is where the context solves none of
/// the existential variables in it.
pub proof fn lemma_apply_unsolved(ctx: Seq<Member>, t: Ty)
    requires
        forall|beta: Seq<char>| t.mentions_evar(beta) ==> !solves(ctx, beta),
    ensures
        apply(ctx, t) == t,
    decreases ctx.len(), t,
{
    match t {
        Ty::Unit => {},
        Ty::Var(v) => {},
        Ty::EVar(a) => {
            if ctx.len() > 0 {
                assert(t.mentions_evar(a));
                let pre = ctx.drop_last();
                if ctx.last() is Solved && ctx.last()->Solved_0 == a {
                    assert(ctx[ctx.len() - 1] is Solved);
                    assert(solves(ctx, a));
                }
                assert forall|beta: Seq<char>| t.mentions_evar(beta) implies !solves(
                    pre,
                    beta,
                ) by {
                    if solves(pre, beta) {
                        let i = choose|i: int|
                            0 <= i < pre.len() && (#[trigger] pre[i]) is Solved
                                && pre[i]->Solved_0 == beta;
                        assert(ctx[i] is Solved && ctx[i]->Solved_0 == beta);
                    }
                }
                lemma_apply_unsolved(pre, t);
            }
        },
        Ty::Arr(a, b) => {
            lemma_apply_unsolved(ctx, *a);
            lemma_apply_unsolved(ctx, *b);
        },
        Ty::All(v, b) => {
            lemma_apply_unsolved(ctx, *b);
        },
    }
}

/// What a well-formed context leaves in a type that it is applied to: an
/// existential variable of the result was in the type or is declared in the
/// context, and the context does not solve it.
pub proof fn lemma_apply_mentions(ctx: Seq<Member>, t: Ty, beta: Seq<char>)
    requires
        wf(ctx),
        apply(ctx, t).mentions_evar(beta),
    ensures
        t.mentions_evar(beta) || declares_evar(ctx, beta),
        !solves(ctx, beta),
    decreases ctx.len(), t,
{
    match t {
        Ty::Unit => {},
        Ty::Var(v) => {},
        Ty::EVar(a) => {
            if ctx.len() == 0 {
            } else {
                let pre = ctx.drop_last();
                let n = ctx.len() - 1;
                lemma_wf_take(ctx, n);
                assert(ctx.take(n) =~= pre);
                if ctx.last() is Solved && ctx.last()->Solved_0 == a {
                    let tau = ctx.last()->Solved_1;
                    lemma_apply_mentions(pre, tau, beta);
                    assert(entry_wf(ctx, n));
                    if tau.mentions_evar(beta) {
                        lemma_type_wf_mentions(pre, tau, beta);
                    }
                    let i = choose|i: int| 0 <= i < pre.len() && #[trigger] pre[i].declares_evar(
                        beta,
                    );
                    assert(ctx[i].declares_evar(beta));
                    assert(!same_binder(ctx[i], ctx[n]));
                    assert(beta != a);
                } else {
                    lemma_apply_mentions(pre, t, beta);
                    if beta != a {
                        let i = choose|i: int|
                            0 <= i < pre.len() && #[trigger] pre[i].declares_evar(beta);
                        assert(ctx[i].declares_evar(beta));
                        assert(!same_binder(ctx[i], ctx[n]));
                    }
                }
                if solves(ctx, beta) {
                    let j = choose|j: int|
                        0 <= j < ctx.len() && (#[trigger] ctx[j]) is Solved && ctx[j]->Solved_0
                            == beta;
                    if j < n {
                        assert(pre[j] is Solved && pre[j]->Solved_0 == beta);
                    }
                }
            }
        },
        Ty::Arr(a, b) => {
            if apply(ctx, *a).mentions_evar(beta) {
                lemma_apply_mentions(ctx, *a, beta);
            } else {
                lemma_apply_mentions(ctx, *b, beta);
            }
        },
        Ty::All(v, b) => {
            lemma_apply_mentions(ctx, *b, beta);
        },
    }
}

/// Applying a well-formed context twice is the same as applying it once.
pub proof fn lemma_apply_idempotent(ctx: Seq<Member>, t: Ty)
    requires
        wf(ctx),
    ensures
        apply(ctx, apply(ctx, t)) == apply(ctx, t),
{
    let r = apply(ctx, t);
    assert forall|beta: Seq<char>| r.mentions_evar(beta) implies !solves(ctx, beta) by {
        lemma_apply_mentions(ctx, t, beta);
    }
    lemma_apply_unsolved(ctx, r);
}

} // verus!
