//! What the judgment keeps: on a well-formed state it yields a well-formed
//! state, it never undoes progress, and it leaves the rigid entries of the
//! context as they are.

use vstd::prelude::*;
use crate::context::{
    apply, declares_evar, entry_wf, left_of, lemma_index_of, same_binder, type_wf, wf,
};
use crate::ctxmember::Member;
use crate::lemmas::{lemma_apply_idempotent, lemma_wf_take};
use crate::rules::{
    articulable, articulate, budget, cut, descends, fresh_arrow, rigid, solvable, solve, splice,
    subtype, unsolved, weight,
};
use crate::state::{fresh_name, lemma_fresh_name_injective, names_fresh, State};
use crate::surgery::{lemma_cut_rigid, lemma_splice_counts, lemma_splice_wf, lemma_split};
use crate::types::Ty;

verus! {

/// The judgment never undoes progress: the counter does not go back; where it
/// stands still, no more existential variables are unsolved than before; and
/// where that number stands still too, the state is the same.
pub open spec fn progress(s: State, r: State) -> bool {
    &&& r.next >= s.next
    &&& r.next == s.next ==> unsolved(r.ctx) <= unsolved(s.ctx)
    &&& r.next == s.next && unsolved(r.ctx) == unsolved(s.ctx) ==> r == s
}

/// What the judgment keeps of the state it starts from.
pub open spec fn kept(s: State, r: State) -> bool {
    &&& r.wf()
    &&& progress(s, r)
    &&& rigid(r.ctx) == rigid(s.ctx)
}

/// Pushing a declaration without a type under the next fresh name keeps a
/// context well formed.
pub proof fn lemma_push_fresh(ctx: Seq<Member>, next: nat, m: Member)
    requires
        wf(ctx),
        names_fresh(ctx, next),
        m is Var || m is Marker || m is EVar,
        m.bound_name() == Some(fresh_name(next)),
    ensures
        wf(ctx.push(m)),
        names_fresh(ctx.push(m), next + 1),
        !ctx.contains(m),
{
    let c = ctx.push(m);
    assert forall|i: int| 0 <= i < c.len() implies #[trigger] entry_wf(c, i) by {
        if i < ctx.len() {
            assert(entry_wf(ctx, i));
            assert(c.take(i) =~= ctx.take(i));
        }
    }
    assert forall|i: int, j: int| 0 <= i < j < c.len() implies !#[trigger] same_binder(
        c[i],
        c[j],
    ) by {
        if j < ctx.len() {
            assert(!same_binder(ctx[i], ctx[j]));
        } else {
            assert(ctx[i].bound_name() != Some(fresh_name(next)));
        }
    }
    assert forall|i: int, k: nat| 0 <= i < c.len() && k >= next + 1 implies (#[trigger] c[i])
        .bound_name() != Some(#[trigger] fresh_name(k)) by {
        if i < ctx.len() {
            assert(ctx[i].bound_name() != Some(fresh_name(k)));
        } else {
            if fresh_name(k) == fresh_name(next) {
                lemma_fresh_name_injective(k, next);
            }
        }
    }
    if ctx.contains(m) {
        let i = choose|i: int| 0 <= i < ctx.len() && ctx[i] == m;
        assert(ctx[i].bound_name() != Some(fresh_name(next)));
    }
}

/// Every entry of a spliced context is an entry of the context or one of
/// those that came in.
pub proof fn lemma_splice_entries(ctx: Seq<Member>, m: Member, mid: Seq<Member>, i: int)
    requires
        ctx.contains(m),
        0 <= i < splice(ctx, m, mid).len(),
    ensures
        ctx.contains(splice(ctx, m, mid)[i]) || mid.contains(splice(ctx, m, mid)[i]),
{
    lemma_split(ctx, m);
    let n = left_of(ctx, m).len() as int;
    let p = mid.len() as int;
    if i < n {
        assert(ctx[i] == splice(ctx, m, mid)[i]);
    } else if i < n + p {
        assert(mid[i - n] == splice(ctx, m, mid)[i]);
    } else {
        assert(ctx[i - p + 1] == splice(ctx, m, mid)[i]);
    }
}

/// Solving an existential variable keeps the state well formed, keeps the
/// rigid entries, and leaves one existential variable fewer unsolved.
pub proof fn lemma_solve(s: State, alpha: Seq<char>, tau: Ty)
    requires
        s.wf(),
        solvable(s.ctx, alpha, tau),
    ensures
        kept(s, solve(s, alpha, tau)),
        unsolved(solve(s, alpha, tau).ctx) + 1 == unsolved(s.ctx),
{
    let m = Member::EVar(alpha);
    let mid = seq![Member::Solved(alpha, tau)];
    let l = left_of(s.ctx, m);
    let r = solve(s, alpha, tau);
    lemma_split(s.ctx, m);
    assert((l + mid).take(l.len() as int) =~= l);
    assert(entry_wf(l + mid, l.len() as int + 0));
    lemma_splice_wf(s.ctx, alpha, mid);
    lemma_splice_counts(s.ctx, alpha, mid);
    assert(mid.drop_last() =~= Seq::<Member>::empty());
    assert(unsolved(mid) == 0) by {
        reveal_with_fuel(unsolved, 2);
    }
    assert forall|i: int, k: nat| 0 <= i < r.ctx.len() && k >= r.next implies (#[trigger] r.ctx[i])
        .bound_name() != Some(#[trigger] fresh_name(k)) by {
        lemma_splice_entries(s.ctx, m, mid, i);
        let e = r.ctx[i];
        if s.ctx.contains(e) {
            let j = choose|j: int| 0 <= j < s.ctx.len() && s.ctx[j] == e;
            assert(s.ctx[j].bound_name() != Some(fresh_name(k)));
        } else {
            assert(mid[0] == e);
            assert(s.ctx[l.len() as int].bound_name() != Some(fresh_name(k)));
        }
    }
}

/// Giving an existential variable the shape of a function type keeps the
/// state well formed and keeps the rigid entries; it takes two fresh names.
pub proof fn lemma_articulate(s: State, alpha: Seq<char>)
    requires
        s.wf(),
        s.ctx.contains(Member::EVar(alpha)),
        s.next + 2 <= usize::MAX,
    ensures
        articulate(s, alpha).wf(),
        rigid(articulate(s, alpha).ctx) == rigid(s.ctx),
        articulate(s, alpha).next == s.next + 2,
{
    let m = Member::EVar(alpha);
    let a1 = fresh_name(s.next);
    let a2 = fresh_name(s.next + 1);
    let mid = seq![Member::EVar(a1), Member::EVar(a2), Member::Solved(alpha, fresh_arrow(s))];
    let l = left_of(s.ctx, m);
    let n = l.len() as int;
    let r = articulate(s, alpha);
    lemma_split(s.ctx, m);
    assert(s.ctx[n].bound_name() != Some(fresh_name(s.next)));
    assert(s.ctx[n].bound_name() != Some(fresh_name(s.next + 1)));
    if a1 == a2 {
        lemma_fresh_name_injective(s.next, s.next + 1);
    }
    assert forall|i: int, k: int|
        0 <= i < s.ctx.len() && 0 <= k < mid.len() - 1 implies !#[trigger] same_binder(
        s.ctx[i],
        mid[k],
    ) by {
        assert(s.ctx[i].bound_name() != Some(fresh_name(s.next)));
        assert(s.ctx[i].bound_name() != Some(fresh_name(s.next + 1)));
    }
    assert forall|k: int| 0 <= k < mid.len() implies #[trigger] entry_wf(l + mid, n + k) by {
        if k == 2 {
            let pre = (l + mid).take(n + 2);
            assert(pre[n].declares_evar(a1));
            assert(pre[n + 1].declares_evar(a2));
            assert(declares_evar(pre, a1));
            assert(declares_evar(pre, a2));
            assert(type_wf(pre, Ty::EVar(a1)));
            assert(type_wf(pre, Ty::EVar(a2)));
            assert(type_wf(pre, fresh_arrow(s)));
            assert(fresh_arrow(s).is_mono()) by {
                reveal_with_fuel(Ty::is_mono, 2);
            }
        }
    }
    lemma_splice_wf(s.ctx, alpha, mid);
    lemma_splice_counts(s.ctx, alpha, mid);
    assert forall|i: int, k: nat| 0 <= i < r.ctx.len() && k >= r.next implies (#[trigger] r.ctx[i])
        .bound_name() != Some(#[trigger] fresh_name(k)) by {
        lemma_splice_entries(s.ctx, m, mid, i);
        let e = r.ctx[i];
        if s.ctx.contains(e) {
            let j = choose|j: int| 0 <= j < s.ctx.len() && s.ctx[j] == e;
            assert(s.ctx[j].bound_name() != Some(fresh_name(k)));
        } else {
            let j = choose|j: int| 0 <= j < mid.len() && mid[j] == e;
            if j == 0 {
                if fresh_name(k) == a1 {
                    lemma_fresh_name_injective(k, s.next);
                }
            } else if j == 1 {
                if fresh_name(k) == a2 {
                    lemma_fresh_name_injective(k, s.next + 1);
                }
            } else {
                assert(s.ctx[n].bound_name() != Some(fresh_name(k)));
            }
        }
    }
}

/// Cutting a well-formed state off at an entry leaves a well-formed state.
pub proof fn lemma_cut_wf(s: State, m: Member)
    requires
        s.wf(),
    ensures
        cut(s, m).wf(),
{
    lemma_index_of(s.ctx, m);
    lemma_wf_take(s.ctx, crate::context::index_of(s.ctx, m));
    let c = cut(s, m).ctx;
    assert forall|i: int, k: nat| 0 <= i < c.len() && k >= s.next implies (#[trigger] c[i])
        .bound_name() != Some(#[trigger] fresh_name(k)) by {
        assert(s.ctx[i].bound_name() != Some(fresh_name(k)));
    }
}

/// On a well-formed state the judgment yields a well-formed state, never
/// undoes progress, and keeps the rigid entries of the context.
pub proof fn lemma_subtype_keeps(s: State, a: Ty, b: Ty)
    requires
        s.wf(),
    ensures
        subtype(s, a, b) matches Some(r) ==> kept(s, r),
    decreases budget(s), unsolved(s.ctx), weight(s, a, b),
{
    if a is Unit && b is Unit {
    } else if a is Var && b is Var && a->Var_0 == b->Var_0 {
    } else if a is EVar && b is EVar && a->EVar_0 == b->EVar_0 {
    } else if a is Arr && b is Arr {
        lemma_subtype_keeps(s, *b->Arr_0, *a->Arr_0);
        match subtype(s, *b->Arr_0, *a->Arr_0) {
            None => {},
            Some(s1) => {
                let a2 = apply(s1.ctx, *a->Arr_1);
                let b2 = apply(s1.ctx, *b->Arr_1);
                if descends(s, a, b, s1, a2, b2) {
                    lemma_subtype_keeps(s1, a2, b2);
                }
            },
        }
    } else if b is All {
        if s.next < usize::MAX {
            let v = Member::Var(fresh_name(s.next));
            let s0 = State { ctx: s.ctx.push(v), next: s.next + 1 };
            let body = b->All_1.subst(b->All_0, Ty::Var(fresh_name(s.next)));
            lemma_push_fresh(s.ctx, s.next, v);
            lemma_subtype_keeps(s0, a, body);
            match subtype(s0, a, body) {
                None => {},
                Some(s1) => {
                    lemma_cut_wf(s1, v);
                    assert(s0.ctx.drop_last() =~= s.ctx);
                    assert(rigid(s0.ctx) == rigid(s.ctx).push(v));
                    lemma_cut_rigid(s.ctx, s1.ctx, v);
                },
            }
        }
    } else if a is All {
        if s.next < usize::MAX {
            let alpha = fresh_name(s.next);
            let mk = Member::Marker(alpha);
            let s0 = State { ctx: s.ctx.push(mk).push(Member::EVar(alpha)), next: s.next + 1 };
            let body = a->All_1.subst(a->All_0, Ty::EVar(alpha));
            lemma_push_fresh(s.ctx, s.next, mk);
            lemma_declare_behind_marker(s, alpha);
            lemma_subtype_keeps(s0, body, b);
            match subtype(s0, body, b) {
                None => {},
                Some(s1) => {
                    lemma_cut_wf(s1, mk);
                    assert(s0.ctx.drop_last() =~= s.ctx.push(mk));
                    assert(s.ctx.push(mk).drop_last() =~= s.ctx);
                    assert(rigid(s0.ctx) == rigid(s.ctx).push(mk)) by {
                        reveal_with_fuel(rigid, 3);
                    }
                    lemma_cut_rigid(s.ctx, s1.ctx, mk);
                },
            }
        }
    } else if a is EVar && b is Arr {
        if articulable(s, a->EVar_0, b) {
            lemma_articulate(s, a->EVar_0);
            lemma_subtype_keeps(articulate(s, a->EVar_0), fresh_arrow(s), b);
        }
    } else if a is Arr && b is EVar {
        if articulable(s, b->EVar_0, a) {
            lemma_articulate(s, b->EVar_0);
            lemma_subtype_keeps(articulate(s, b->EVar_0), a, fresh_arrow(s));
        }
    } else if a is EVar && solvable(s.ctx, a->EVar_0, b) {
        lemma_solve(s, a->EVar_0, b);
    } else if b is EVar && solvable(s.ctx, b->EVar_0, a) {
        lemma_solve(s, b->EVar_0, a);
    } else {
    }
}

/// Pushing a marker and, behind it, the declaration of an existential
/// variable, both under the next fresh name, keeps a state well formed.
pub proof fn lemma_declare_behind_marker(s: State, alpha: Seq<char>)
    requires
        s.wf(),
        alpha == fresh_name(s.next),
        s.next < usize::MAX,
    ensures
        (State {
            ctx: s.ctx.push(Member::Marker(alpha)).push(Member::EVar(alpha)),
            next: s.next + 1,
        }).wf(),
{
    let mk = Member::Marker(alpha);
    let ev = Member::EVar(alpha);
    let c1 = s.ctx.push(mk);
    let c = c1.push(ev);
    lemma_push_fresh(s.ctx, s.next, mk);
    assert forall|i: int| 0 <= i < c.len() implies #[trigger] entry_wf(c, i) by {
        if i < c1.len() {
            assert(entry_wf(c1, i));
            assert(c.take(i) =~= c1.take(i));
        }
    }
    assert forall|i: int, j: int| 0 <= i < j < c.len() implies !#[trigger] same_binder(
        c[i],
        c[j],
    ) by {
        if j < c1.len() {
            assert(!same_binder(c1[i], c1[j]));
        } else if i < s.ctx.len() {
            assert(s.ctx[i].bound_name() != Some(fresh_name(s.next)));
        }
    }
    assert forall|i: int, k: nat| 0 <= i < c.len() && k >= s.next + 1 implies (#[trigger] c[i])
        .bound_name() != Some(#[trigger] fresh_name(k)) by {
        if i < c1.len() {
            assert(c1[i].bound_name() != Some(fresh_name(k)));
        } else {
            if fresh_name(k) == fresh_name(s.next) {
                lemma_fresh_name_injective(k, s.next);
            }
        }
    }
}

/// On a well-formed state the second comparison of function types descends
/// from the question asked, so the judgment always makes it.
pub proof fn lemma_arrow_descends(s: State, a: Ty, b: Ty)
    requires
        s.wf(),
        a is Arr,
        b is Arr,
    ensures
        subtype(s, *b->Arr_0, *a->Arr_0) matches Some(s1) ==> descends(
            s,
            a,
            b,
            s1,
            apply(s1.ctx, *a->Arr_1),
            apply(s1.ctx, *b->Arr_1),
        ),
{
    lemma_subtype_keeps(s, *b->Arr_0, *a->Arr_0);
    match subtype(s, *b->Arr_0, *a->Arr_0) {
        None => {},
        Some(s1) => {
            lemma_apply_idempotent(s1.ctx, *a->Arr_1);
            lemma_apply_idempotent(s1.ctx, *b->Arr_1);
        },
    }
}

} // verus!
