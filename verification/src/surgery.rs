//! Facts about the two operations on a context that the judgment rests on:
//! replacing the declaration of an existential variable in place, and cutting
//! the context off at an entry.

use vstd::prelude::*;
use crate::context::{
    declares_evar, entry_wf, index_of, left_of, lemma_index_of, right_of, same_binder, wf,
};
use crate::ctxmember::Member;
use crate::lemmas::{
    lemma_rigid_concat, lemma_rigid_members, lemma_type_wf_transfer, lemma_unsolved_concat,
};
use crate::rules::{rigid, splice, unsolved};

verus! {

/// A context that holds `m` is the part left of its first occurrence, `m`,
/// and the part right of it.
pub proof fn lemma_split(ctx: Seq<Member>, m: Member)
    requires
        ctx.contains(m),
    ensures
        ctx == left_of(ctx, m) + seq![m] + right_of(ctx, m),
        left_of(ctx, m).len() == index_of(ctx, m),
        0 <= index_of(ctx, m) < ctx.len(),
        ctx[index_of(ctx, m)] == m,
{
    lemma_index_of(ctx, m);
    assert(ctx =~= left_of(ctx, m) + seq![m] + right_of(ctx, m));
}

/// A sequence of declarations of existential variables has no rigid entries.
pub proof fn lemma_rigid_of_existentials(mid: Seq<Member>)
    requires
        forall|k: int| 0 <= k < mid.len() ==> (#[trigger] mid[k]).is_existential(),
    ensures
        rigid(mid) == Seq::<Member>::empty(),
    decreases mid.len(),
{
    if mid.len() > 0 {
        assert(mid[mid.len() - 1].is_existential());
        lemma_rigid_of_existentials(mid.drop_last());
    }
}

/// Replacing the declaration of an existential variable by declarations of
/// existential variables keeps the rigid entries, and changes the number of
/// unsolved variables by those that come in less the one that goes.
pub proof fn lemma_splice_counts(ctx: Seq<Member>, alpha: Seq<char>, mid: Seq<Member>)
    requires
        ctx.contains(Member::EVar(alpha)),
        forall|k: int| 0 <= k < mid.len() ==> (#[trigger] mid[k]).is_existential(),
    ensures
        rigid(splice(ctx, Member::EVar(alpha), mid)) == rigid(ctx),
        unsolved(splice(ctx, Member::EVar(alpha), mid)) + 1 == unsolved(ctx) + unsolved(mid),
{
    let m = Member::EVar(alpha);
    let l = left_of(ctx, m);
    let r = right_of(ctx, m);
    lemma_split(ctx, m);
    lemma_rigid_concat(l, seq![m]);
    lemma_rigid_concat(l + seq![m], r);
    lemma_rigid_concat(l, mid);
    lemma_rigid_concat(l + mid, r);
    lemma_rigid_of_existentials(mid);
    lemma_rigid_of_existentials(seq![m]);
    assert(rigid(l) + Seq::<Member>::empty() =~= rigid(l));
    lemma_unsolved_concat(l, seq![m]);
    lemma_unsolved_concat(l + seq![m], r);
    lemma_unsolved_concat(l, mid);
    lemma_unsolved_concat(l + mid, r);
    assert(seq![m].drop_last() =~= Seq::<Member>::empty());
    assert(unsolved(seq![m]) == 1) by {
        reveal_with_fuel(unsolved, 2);
    }
}

/// Replacing the declaration of the existential variable `alpha` keeps a
/// context well formed where what comes in its place is a run of declarations
/// of existential variables that ends with one of `alpha` itself, the others
/// under names that the context does not declare and that differ from each
/// other, each entry referring only to what stands left of it.
pub proof fn lemma_splice_wf(ctx: Seq<Member>, alpha: Seq<char>, mid: Seq<Member>)
    requires
        wf(ctx),
        ctx.contains(Member::EVar(alpha)),
        mid.len() >= 1,
        forall|k: int| 0 <= k < mid.len() ==> (#[trigger] mid[k]).is_existential(),
        mid.last().declares_evar(alpha),
        forall|i: int, k: int|
            0 <= i < ctx.len() && 0 <= k < mid.len() - 1 ==> !#[trigger] same_binder(
                ctx[i],
                mid[k],
            ),
        forall|k: int, l: int| 0 <= k < l < mid.len() ==> !#[trigger] same_binder(mid[k], mid[l]),
        forall|k: int|
            0 <= k < mid.len() ==> #[trigger] entry_wf(
                left_of(ctx, Member::EVar(alpha)) + mid,
                left_of(ctx, Member::EVar(alpha)).len() + k,
            ),
    ensures
        wf(splice(ctx, Member::EVar(alpha), mid)),
{
    let m = Member::EVar(alpha);
    let l = left_of(ctx, m);
    let r = right_of(ctx, m);
    let n = l.len() as int;
    let p = mid.len() as int;
    let c = splice(ctx, m, mid);
    lemma_split(ctx, m);
    assert(ctx[n] == m);
    assert forall|i: int| 0 <= i < c.len() implies #[trigger] entry_wf(c, i) by {
        if i < n {
            assert(entry_wf(ctx, i));
            assert(c.take(i) =~= ctx.take(i));
        } else if i < n + p {
            assert(entry_wf(l + mid, n + (i - n)));
            assert(c.take(i) =~= (l + mid).take(i));
        } else {
            let j = i - p + 1;
            assert(c[i] == ctx[j]);
            assert(entry_wf(ctx, j));
            let c1 = ctx.take(j);
            let c2 = c.take(i);
            assert forall|v: Seq<char>| c1.contains(Member::Var(v)) implies c2.contains(
                Member::Var(v),
            ) by {
                let x = choose|x: int| 0 <= x < c1.len() && c1[x] == Member::Var(v);
                if x < n {
                    assert(c2[x] == Member::Var(v));
                } else {
                    assert(c2[x + p - 1] == Member::Var(v));
                }
            }
            assert forall|a: Seq<char>| declares_evar(c1, a) implies declares_evar(c2, a) by {
                let x = choose|x: int| 0 <= x < c1.len() && #[trigger] c1[x].declares_evar(a);
                if x < n {
                    assert(c2[x].declares_evar(a));
                } else if x == n {
                    assert(c2[n + p - 1] == mid.last());
                    assert(c2[n + p - 1].declares_evar(a));
                } else {
                    assert(c2[x + p - 1].declares_evar(a));
                }
            }
            match ctx[j] {
                Member::Solved(_, t) => {
                    lemma_type_wf_transfer(c1, c2, t);
                },
                Member::Assump(_, t) => {
                    lemma_type_wf_transfer(c1, c2, t);
                },
                _ => {},
            }
        }
    }
    assert forall|i: int, j: int| 0 <= i < j < c.len() implies !#[trigger] same_binder(
        c[i],
        c[j],
    ) by {
        let ii = if i < n {
            i
        } else {
            i - p + 1
        };
        let jj = if j < n {
            j
        } else {
            j - p + 1
        };
        let i_mid = n <= i < n + p;
        let j_mid = n <= j < n + p;
        if i_mid && j_mid {
            assert(!same_binder(mid[i - n], mid[j - n]));
        } else if i_mid {
            assert(c[j] == ctx[jj]);
            if i - n < p - 1 {
                assert(!same_binder(ctx[jj], mid[i - n]));
            } else {
                assert(!same_binder(ctx[n], ctx[jj]));
            }
        } else if j_mid {
            assert(c[i] == ctx[ii]);
            if j - n < p - 1 {
                assert(!same_binder(ctx[ii], mid[j - n]));
            } else {
                assert(!same_binder(ctx[ii], ctx[n]));
            }
        } else {
            assert(c[i] == ctx[ii]);
            assert(c[j] == ctx[jj]);
            assert(!same_binder(ctx[ii], ctx[jj]));
        }
    }
}

/// Cutting a context off at a rigid entry that was pushed onto another
/// context: where the rigid entries are still those of the other context and
/// the pushed entry, the entry is there, and what stands left of it has the
/// rigid entries of the other context.
pub proof fn lemma_cut_rigid(base: Seq<Member>, ctx: Seq<Member>, m: Member)
    requires
        !m.is_existential(),
        !base.contains(m),
        rigid(ctx) == rigid(base).push(m),
    ensures
        ctx.contains(m),
        rigid(left_of(ctx, m)) == rigid(base),
{
    lemma_rigid_members(ctx, m);
    assert(rigid(ctx)[rigid(base).len() as int] == m);
    lemma_split(ctx, m);
    let l = left_of(ctx, m);
    let r = right_of(ctx, m);
    lemma_rigid_concat(l, seq![m]);
    lemma_rigid_concat(l + seq![m], r);
    assert(seq![m].drop_last() =~= Seq::<Member>::empty());
    assert(rigid(seq![m]) =~= seq![m]) by {
        reveal_with_fuel(rigid, 2);
    }
    let whole = rigid(l) + seq![m] + rigid(r);
    assert(rigid(ctx) == whole);
    let k = rigid(l).len() as int;
    assert(whole[k] == m);
    assert(whole.len() == k + 1 + rigid(r).len());
    assert(rigid(base).push(m).len() == rigid(base).len() + 1);
    if k < rigid(base).len() {
        assert(rigid(base).push(m)[k] == rigid(base)[k]);
        assert(rigid(base)[k] == m);
        lemma_rigid_members(base, m);
    }
    assert(k == rigid(base).len());
    assert forall|i: int| 0 <= i < k implies rigid(l)[i] == rigid(base)[i] by {
        assert(whole[i] == rigid(l)[i]);
        assert(rigid(base).push(m)[i] == rigid(base)[i]);
    }
    assert(rigid(l) =~= rigid(base));
}

} // verus!
