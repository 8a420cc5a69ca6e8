//! What the judgment keeps in scope: an existential variable that a context
//! declares, and one that it declares left of a rigid entry, is still declared
//! there afterwards. So a type that was well formed stays well formed.

use vstd::prelude::*;
use crate::context::{apply, declares_evar, index_of, left_of, lemma_index_of, type_wf};
use crate::ctxmember::Member;
use crate::lemmas::{lemma_rigid_members, lemma_type_wf_transfer};
use crate::rules::{
    articulable, articulate, budget, descends, fresh_arrow, rigid, solvable, splice, subtype,
    unsolved, weight,
};
use crate::soundness::{lemma_articulate, lemma_push_fresh, lemma_solve, lemma_subtype_keeps};
use crate::state::{fresh_name, State};
use crate::surgery::{lemma_cut_rigid, lemma_split};
use crate::types::Ty;

verus! {

/// Whether `after` declares every existential variable that `before`
/// declares, and declares left of each rigid entry of `before` every
/// existential variable that `before` declares left of it.
pub open spec fn keeps_scopes(before: Seq<Member>, after: Seq<Member>) -> bool {
    &&& forall|beta: Seq<char>| #[trigger]
        declares_evar(before, beta) ==> declares_evar(after, beta)
    &&& forall|m: Member, beta: Seq<char>|
        before.contains(m) && !m.is_existential() && #[trigger] declares_evar(
            left_of(before, m),
            beta,
        ) ==> declares_evar(left_of(after, m), beta)
}

/// What a prefix declares, the whole declares.
pub proof fn lemma_declares_prefix(ctx: Seq<Member>, n: int, beta: Seq<char>)
    requires
        0 <= n <= ctx.len(),
        declares_evar(ctx.take(n), beta),
    ensures
        declares_evar(ctx, beta),
{
    let i = choose|i: int| 0 <= i < ctx.take(n).len() && #[trigger] ctx.take(n)[i].declares_evar(
        beta,
    );
    assert(ctx[i].declares_evar(beta));
}

/// Entries that come in on the right change nothing left of an entry that was
/// there before.
pub proof fn lemma_left_of_push(ctx: Seq<Member>, x: Member, m: Member)
    requires
        ctx.contains(m),
    ensures
        left_of(ctx.push(x), m) == left_of(ctx, m),
        index_of(ctx.push(x), m) == index_of(ctx, m),
{
    let c = ctx.push(x);
    lemma_index_of(ctx, m);
    lemma_index_of(c, m);
    let i = index_of(ctx, m);
    let j = index_of(c, m);
    assert(c[i] == m);
    if j < i {
        assert(ctx[j] == c[j]);
    }
    assert(left_of(c, m) =~= left_of(ctx, m));
}

/// Pushing an entry keeps the scopes.
pub proof fn lemma_push_keeps_scopes(ctx: Seq<Member>, x: Member)
    ensures
        keeps_scopes(ctx, ctx.push(x)),
{
    let c = ctx.push(x);
    assert forall|beta: Seq<char>| #[trigger] declares_evar(ctx, beta) implies declares_evar(
        c,
        beta,
    ) by {
        assert(c.take(ctx.len() as int) =~= ctx);
        lemma_declares_prefix(c, ctx.len() as int, beta);
    }
    assert forall|m: Member, beta: Seq<char>|
        ctx.contains(m) && !m.is_existential() && #[trigger] declares_evar(
            left_of(ctx, m),
            beta,
        ) implies declares_evar(left_of(c, m), beta) by {
        lemma_left_of_push(ctx, x, m);
    }
}

/// Keeping the scopes carries over from one step to the next, where the
/// first step keeps the rigid entries.
pub proof fn lemma_keeps_scopes_transitive(a: Seq<Member>, b: Seq<Member>, c: Seq<Member>)
    requires
        keeps_scopes(a, b),
        keeps_scopes(b, c),
        rigid(a) == rigid(b),
    ensures
        keeps_scopes(a, c),
{
    assert forall|m: Member, beta: Seq<char>|
        a.contains(m) && !m.is_existential() && #[trigger] declares_evar(
            left_of(a, m),
            beta,
        ) implies declares_evar(left_of(c, m), beta) by {
        lemma_rigid_members(a, m);
        lemma_rigid_members(b, m);
        assert(declares_evar(left_of(b, m), beta));
    }
}

/// Replacing the declaration of an existential variable by a run of
/// declarations of existential variables that ends with one of the same
/// variable keeps the scopes.
pub proof fn lemma_splice_keeps_scopes(ctx: Seq<Member>, alpha: Seq<char>, mid: Seq<Member>)
    requires
        ctx.contains(Member::EVar(alpha)),
        mid.len() >= 1,
        forall|k: int| 0 <= k < mid.len() ==> (#[trigger] mid[k]).is_existential(),
        mid.last().declares_evar(alpha),
    ensures
        keeps_scopes(ctx, splice(ctx, Member::EVar(alpha), mid)),
{
    let e = Member::EVar(alpha);
    let c = splice(ctx, e, mid);
    lemma_split(ctx, e);
    let n = index_of(ctx, e);
    let p = mid.len() as int;
    assert(c[n + p - 1] == mid.last());
    assert forall|beta: Seq<char>| #[trigger] declares_evar(ctx, beta) implies declares_evar(
        c,
        beta,
    ) by {
        let i = choose|i: int| 0 <= i < ctx.len() && #[trigger] ctx[i].declares_evar(beta);
        if i < n {
            assert(c[i].declares_evar(beta));
        } else if i == n {
            assert(c[n + p - 1].declares_evar(beta));
        } else {
            assert(c[i + p - 1].declares_evar(beta));
        }
    }
    assert forall|m: Member, beta: Seq<char>|
        ctx.contains(m) && !m.is_existential() && #[trigger] declares_evar(
            left_of(ctx, m),
            beta,
        ) implies declares_evar(left_of(c, m), beta) by {
        lemma_index_of(ctx, m);
        lemma_index_of(c, m);
        let j = index_of(ctx, m);
        let l1 = left_of(ctx, m);
        let l2 = left_of(c, m);
        let i = choose|i: int| 0 <= i < l1.len() && #[trigger] l1[i].declares_evar(beta);
        if j < n {
            assert(c[j] == m);
            assert forall|x: int| 0 <= x < j implies c[x] != m by {
                assert(c[x] == ctx[x]);
            }
            assert(index_of(c, m) == j) by {
                if index_of(c, m) < j {
                    assert(c[index_of(c, m)] == m);
                } else if index_of(c, m) > j {
                }
            }
            assert(l2[i] == l1[i]);
        } else {
            let jj = j + p - 1;
            assert(c[jj] == m);
            assert forall|x: int| 0 <= x < jj implies c[x] != m by {
                if x < n {
                    assert(c[x] == ctx[x]);
                } else if x < n + p {
                    assert(c[x] == mid[x - n]);
                } else {
                    assert(c[x] == ctx[x - p + 1]);
                }
            }
            assert(index_of(c, m) == jj) by {
                if index_of(c, m) < jj {
                    assert(c[index_of(c, m)] == m);
                }
            }
            if i < n {
                assert(l2[i] == l1[i]);
            } else if i == n {
                assert(l2[n + p - 1] == mid.last());
            } else {
                assert(l2[i + p - 1] == l1[i]);
            }
        }
    }
}

/// Cutting a context off at a rigid entry that was pushed onto another
/// context keeps the scopes of the other context, where the step in between
/// kept the scopes and the rigid entries.
pub proof fn lemma_cut_keeps_scopes(base: Seq<Member>, ctx: Seq<Member>, m: Member)
    requires
        !m.is_existential(),
        !base.contains(m),
        rigid(ctx) == rigid(base).push(m),
        keeps_scopes(base.push(m), ctx),
    ensures
        keeps_scopes(base, left_of(ctx, m)),
{
    let pushed = base.push(m);
    let cutoff = left_of(ctx, m);
    lemma_cut_rigid(base, ctx, m);
    lemma_index_of(pushed, m);
    lemma_index_of(ctx, m);
    assert(pushed[base.len() as int] == m);
    assert(index_of(pushed, m) == base.len()) by {
        if index_of(pushed, m) < base.len() {
            assert(base[index_of(pushed, m)] == m);
        }
    }
    assert(left_of(pushed, m) =~= base);
    assert forall|beta: Seq<char>| #[trigger] declares_evar(base, beta) implies declares_evar(
        cutoff,
        beta,
    ) by {
        assert(declares_evar(left_of(pushed, m), beta));
    }
    assert forall|k: Member, beta: Seq<char>|
        base.contains(k) && !k.is_existential() && #[trigger] declares_evar(
            left_of(base, k),
            beta,
        ) implies declares_evar(left_of(cutoff, k), beta) by {
        lemma_left_of_push(base, m, k);
        let i = choose|i: int| 0 <= i < base.len() && base[i] == k;
        assert(pushed[i] == k);
        assert(declares_evar(left_of(pushed, k), beta));
        assert(declares_evar(left_of(ctx, k), beta));
        lemma_rigid_members(base, k);
        lemma_rigid_members(cutoff, k);
        lemma_index_of(cutoff, k);
        lemma_index_of(ctx, k);
        let x = index_of(cutoff, k);
        assert(ctx[x] == cutoff[x]);
        assert(index_of(ctx, k) == x) by {
            if index_of(ctx, k) < x {
                assert(cutoff[index_of(ctx, k)] == k);
            }
        }
        assert(left_of(cutoff, k) =~= left_of(ctx, k));
    }
}

/// On a well-formed state the judgment keeps the scopes of the context.
pub proof fn lemma_subtype_keeps_scopes(s: State, a: Ty, b: Ty)
    requires
        s.wf(),
    ensures
        subtype(s, a, b) matches Some(r) ==> keeps_scopes(s.ctx, r.ctx),
    decreases budget(s), unsolved(s.ctx), weight(s, a, b),
{
    if a is Unit && b is Unit {
    } else if a is Var && b is Var && a->Var_0 == b->Var_0 {
    } else if a is EVar && b is EVar && a->EVar_0 == b->EVar_0 {
    } else if a is Arr && b is Arr {
        lemma_subtype_keeps(s, *b->Arr_0, *a->Arr_0);
        lemma_subtype_keeps_scopes(s, *b->Arr_0, *a->Arr_0);
        match subtype(s, *b->Arr_0, *a->Arr_0) {
            None => {},
            Some(s1) => {
                let a2 = apply(s1.ctx, *a->Arr_1);
                let b2 = apply(s1.ctx, *b->Arr_1);
                if descends(s, a, b, s1, a2, b2) {
                    lemma_subtype_keeps_scopes(s1, a2, b2);
                    match subtype(s1, a2, b2) {
                        None => {},
                        Some(s2) => {
                            lemma_keeps_scopes_transitive(s.ctx, s1.ctx, s2.ctx);
                        },
                    }
                }
            },
        }
    } else if b is All {
        if s.next < usize::MAX {
            let v = Member::Var(fresh_name(s.next));
            let s0 = State { ctx: s.ctx.push(v), next: s.next + 1 };
            let body = b->All_1.subst(b->All_0, Ty::Var(fresh_name(s.next)));
            lemma_push_fresh(s.ctx, s.next, v);
            lemma_subtype_keeps(s0, a, body);
            lemma_subtype_keeps_scopes(s0, a, body);
            match subtype(s0, a, body) {
                None => {},
                Some(s1) => {
                    assert(s0.ctx.drop_last() =~= s.ctx);
                    assert(rigid(s0.ctx) == rigid(s.ctx).push(v));
                    lemma_cut_keeps_scopes(s.ctx, s1.ctx, v);
                },
            }
        }
    } else if a is All {
        if s.next < usize::MAX {
            let alpha = fresh_name(s.next);
            let mk = Member::Marker(alpha);
            let mid = State { ctx: s.ctx.push(mk), next: s.next + 1 };
            let s0 = State { ctx: mid.ctx.push(Member::EVar(alpha)), next: s.next + 1 };
            let body = a->All_1.subst(a->All_0, Ty::EVar(alpha));
            lemma_push_fresh(s.ctx, s.next, mk);
            crate::soundness::lemma_declare_behind_marker(s, alpha);
            lemma_subtype_keeps(s0, body, b);
            lemma_subtype_keeps_scopes(s0, body, b);
            match subtype(s0, body, b) {
                None => {},
                Some(s1) => {
                    assert(s0.ctx.drop_last() =~= mid.ctx);
                    assert(mid.ctx.drop_last() =~= s.ctx);
                    assert(rigid(s0.ctx) == rigid(s.ctx).push(mk)) by {
                        reveal_with_fuel(rigid, 3);
                    }
                    assert(rigid(mid.ctx) == rigid(s0.ctx));
                    lemma_push_keeps_scopes(mid.ctx, Member::EVar(alpha));
                    lemma_keeps_scopes_transitive(mid.ctx, s0.ctx, s1.ctx);
                    lemma_cut_keeps_scopes(s.ctx, s1.ctx, mk);
                },
            }
        }
    } else if a is EVar && b is Arr {
        if articulable(s, a->EVar_0, b) {
            lemma_articulate_keeps_scopes(s, a->EVar_0);
            let s0 = articulate(s, a->EVar_0);
            lemma_subtype_keeps_scopes(s0, fresh_arrow(s), b);
            match subtype(s0, fresh_arrow(s), b) {
                None => {},
                Some(r) => {
                    lemma_keeps_scopes_transitive(s.ctx, s0.ctx, r.ctx);
                },
            }
        }
    } else if a is Arr && b is EVar {
        if articulable(s, b->EVar_0, a) {
            lemma_articulate_keeps_scopes(s, b->EVar_0);
            let s0 = articulate(s, b->EVar_0);
            lemma_subtype_keeps_scopes(s0, a, fresh_arrow(s));
            match subtype(s0, a, fresh_arrow(s)) {
                None => {},
                Some(r) => {
                    lemma_keeps_scopes_transitive(s.ctx, s0.ctx, r.ctx);
                },
            }
        }
    } else if a is EVar && solvable(s.ctx, a->EVar_0, b) {
        lemma_splice_keeps_scopes(s.ctx, a->EVar_0, seq![Member::Solved(a->EVar_0, b)]);
    } else if b is EVar && solvable(s.ctx, b->EVar_0, a) {
        lemma_splice_keeps_scopes(s.ctx, b->EVar_0, seq![Member::Solved(b->EVar_0, a)]);
    } else {
    }
}

/// Giving an existential variable the shape of a function type keeps the
/// state well formed, the rigid entries and the scopes.
pub proof fn lemma_articulate_keeps_scopes(s: State, alpha: Seq<char>)
    requires
        s.wf(),
        s.ctx.contains(Member::EVar(alpha)),
        s.next + 2 <= usize::MAX,
    ensures
        articulate(s, alpha).wf(),
        rigid(articulate(s, alpha).ctx) == rigid(s.ctx),
        keeps_scopes(s.ctx, articulate(s, alpha).ctx),
{
    lemma_articulate(s, alpha);
    lemma_splice_keeps_scopes(
        s.ctx,
        alpha,
        seq![
            Member::EVar(fresh_name(s.next)),
            Member::EVar(fresh_name(s.next + 1)),
            Member::Solved(alpha, fresh_arrow(s)),
        ],
    );
}

/// A type that is well formed under the state that a judgment starts from is
/// well formed under the state that it yields.
pub proof fn law_types_stay_well_formed(s: State, a: Ty, b: Ty, t: Ty)
    requires
        s.wf(),
        subtype(s, a, b) is Some,
        type_wf(s.ctx, t),
    ensures
        type_wf(subtype(s, a, b)->Some_0.ctx, t),
{
    let r = subtype(s, a, b)->Some_0;
    lemma_subtype_keeps(s, a, b);
    lemma_subtype_keeps_scopes(s, a, b);
    assert forall|v: Seq<char>| s.ctx.contains(Member::Var(v)) implies r.ctx.contains(
        Member::Var(v),
    ) by {
        lemma_rigid_members(s.ctx, Member::Var(v));
        lemma_rigid_members(r.ctx, Member::Var(v));
    }
    lemma_type_wf_transfer(s.ctx, r.ctx, t);
}

} // verus!
