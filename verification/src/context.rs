//! The typing context: an ordered sequence of entries, with membership,
//! splitting around an entry, lookup, well-formedness of a type and
//! application of the context as a substitution.

use vstd::prelude::*;
use vstd::std_specs::cmp::PartialEqSpecImpl;
use vstd::std_specs::convert::FromSpecImpl;
use crate::ctxmember::{CtxMember, Member};
use crate::expr::EVar;
use crate::types::{TEVar, Ty, Type};

verus! {

/// An ordered typing context. Entries are only added at the right end,
/// replaced in place, or cut off from the right.
#[derive(Debug)]
pub struct Context(pub Vec<CtxMember>);

impl View for Context {
    type V = Seq<Member>;

    open spec fn view(&self) -> Seq<Member> {
        self.0@.map_values(|m: CtxMember| m@)
    }
}

/// The position of the first occurrence of `m` in `ctx`, or the length of
/// `ctx` where `m` does not occur.
pub open spec fn index_of(ctx: Seq<Member>, m: Member) -> int
    decreases ctx.len(),
{
    if ctx.len() == 0 {
        0
    } else if ctx.first() == m {
        0
    } else {
        1 + index_of(ctx.drop_first(), m)
    }
}

/// `index_of` is the least position that holds `m`.
pub proof fn lemma_index_of(ctx: Seq<Member>, m: Member)
    ensures
        0 <= index_of(ctx, m) <= ctx.len(),
        index_of(ctx, m) < ctx.len() <==> ctx.contains(m),
        index_of(ctx, m) < ctx.len() ==> ctx[index_of(ctx, m)] == m,
        forall|j: int| 0 <= j < index_of(ctx, m) ==> ctx[j] != m,
    decreases ctx.len(),
{
    if ctx.len() == 0 {
    } else if ctx.first() == m {
        assert(ctx[0] == m);
    } else {
        let rest = ctx.drop_first();
        lemma_index_of(rest, m);
        let k = index_of(rest, m);
        if k < rest.len() {
            assert(ctx[k + 1] == rest[k]);
        }
        if ctx.contains(m) {
            let i = choose|i: int| 0 <= i < ctx.len() && ctx[i] == m;
            assert(rest[i - 1] == m);
        }
        assert forall|j: int| 0 <= j < k + 1 implies ctx[j] != m by {
            if j > 0 {
                assert(ctx[j] == rest[j - 1]);
            }
        }
    }
}

/// The entries of `ctx` at the positions where `keep` holds, in their order.
pub open spec fn selection(ctx: Seq<Member>, keep: Seq<bool>) -> Seq<Member>
    recommends
        keep.len() == ctx.len(),
    decreases ctx.len(),
{
    if ctx.len() == 0 || keep.len() == 0 {
        Seq::empty()
    } else if keep.last() {
        selection(ctx.drop_last(), keep.drop_last()).push(ctx.last())
    } else {
        selection(ctx.drop_last(), keep.drop_last())
    }
}

/// The part of `ctx` strictly left of the first occurrence of `m`; all of
/// `ctx` where `m` does not occur.
pub open spec fn left_of(ctx: Seq<Member>, m: Member) -> Seq<Member> {
    ctx.take(index_of(ctx, m))
}

/// The part of `ctx` strictly right of the first occurrence of `m`.
pub open spec fn right_of(ctx: Seq<Member>, m: Member) -> Seq<Member>
    recommends
        ctx.contains(m),
{
    ctx.skip(index_of(ctx, m) + 1)
}

/// Whether `ctx` holds a declaration of the existential variable `alpha`,
/// solved or not.
pub open spec fn declares_evar(ctx: Seq<Member>, alpha: Seq<char>) -> bool {
    exists|i: int| 0 <= i < ctx.len() && #[trigger] ctx[i].declares_evar(alpha)
}

/// Whether `t` is well formed under `ctx`: each rigid variable that is free in
/// it is declared in `ctx`, and each existential variable in it is declared in
/// `ctx`, solved or not. The body of a quantifier is judged under `ctx`
/// extended with the bound variable.
pub open spec fn type_wf(ctx: Seq<Member>, t: Ty) -> bool
    decreases t,
{
    match t {
        Ty::Unit => true,
        Ty::Var(v) => ctx.contains(Member::Var(v)),
        Ty::EVar(a) => declares_evar(ctx, a),
        Ty::Arr(a, b) => type_wf(ctx, *a) && type_wf(ctx, *b),
        Ty::All(v, b) => type_wf(ctx.push(Member::Var(v)), *b),
    }
}

/// The type that the rightmost assumption for the term variable `x` carries.
pub open spec fn lookup_assumption(ctx: Seq<Member>, x: Seq<char>) -> Option<Ty>
    decreases ctx.len(),
{
    if ctx.len() == 0 {
        None
    } else if ctx.last() is Assump && ctx.last()->Assump_0 == x {
        Some(ctx.last()->Assump_1)
    } else {
        lookup_assumption(ctx.drop_last(), x)
    }
}

/// The type that the rightmost solution of the existential variable `alpha`
/// carries.
pub open spec fn lookup_solution(ctx: Seq<Member>, alpha: Seq<char>) -> Option<Ty>
    decreases ctx.len(),
{
    if ctx.len() == 0 {
        None
    } else if ctx.last() is Solved && ctx.last()->Solved_0 == alpha {
        Some(ctx.last()->Solved_1)
    } else {
        lookup_solution(ctx.drop_last(), alpha)
    }
}

/// At most one entry of `ctx` is an assumption for the term variable `x`.
pub open spec fn at_most_one_assumption(ctx: Seq<Member>, x: Seq<char>) -> bool {
    forall|i: int, j: int|
        0 <= i < ctx.len() && 0 <= j < ctx.len() && (#[trigger] ctx[i]) is Assump
            && ctx[i]->Assump_0 == x && (#[trigger] ctx[j]) is Assump && ctx[j]->Assump_0 == x
            ==> i == j
}

/// At most one entry of `ctx` is a solution of the existential variable
/// `alpha`.
pub open spec fn at_most_one_solution(ctx: Seq<Member>, alpha: Seq<char>) -> bool {
    forall|i: int, j: int|
        0 <= i < ctx.len() && 0 <= j < ctx.len() && (#[trigger] ctx[i]) is Solved
            && ctx[i]->Solved_0 == alpha && (#[trigger] ctx[j]) is Solved && ctx[j]->Solved_0
            == alpha ==> i == j
}

/// `t` with every existential variable replaced by its solution, the solution
/// itself resolved under the entries left of where it stands. Unsolved
/// existential variables, rigid variables and the unit type stay.
pub open spec fn apply(ctx: Seq<Member>, t: Ty) -> Ty
    decreases ctx.len(), t,
{
    match t {
        Ty::Unit => Ty::Unit,
        Ty::Var(v) => Ty::Var(v),
        Ty::EVar(a) => if ctx.len() == 0 {
            Ty::EVar(a)
        } else if ctx.last() is Solved && ctx.last()->Solved_0 == a {
            apply(ctx.drop_last(), ctx.last()->Solved_1)
        } else {
            apply(ctx.drop_last(), Ty::EVar(a))
        },
        Ty::Arr(a, b) => Ty::Arr(Box::new(apply(ctx, *a)), Box::new(apply(ctx, *b))),
        Ty::All(v, b) => Ty::All(v, Box::new(apply(ctx, *b))),
    }
}

/// Whether two entries declare the same name in the same role: two rigid
/// variables, two assumptions, two markers, or two existential variables,
/// solved or not.
pub open spec fn same_binder(m: Member, n: Member) -> bool {
    match (m, n) {
        (Member::Var(a), Member::Var(b)) => a == b,
        (Member::Assump(a, _), Member::Assump(b, _)) => a == b,
        (Member::Marker(a), Member::Marker(b)) => a == b,
        (Member::EVar(a), Member::EVar(b)) => a == b,
        (Member::EVar(a), Member::Solved(b, _)) => a == b,
        (Member::Solved(a, _), Member::EVar(b)) => a == b,
        (Member::Solved(a, _), Member::Solved(b, _)) => a == b,
        _ => false,
    }
}

/// Whether the entry at position `i` refers only to what is declared strictly
/// left of it, and, where it is a solution, holds a monotype.
pub open spec fn entry_wf(ctx: Seq<Member>, i: int) -> bool {
    match ctx[i] {
        Member::Solved(_, t) => t.is_mono() && type_wf(ctx.take(i), t),
        Member::Assump(_, t) => type_wf(ctx.take(i), t),
        _ => true,
    }
}

/// The invariant of a context: every entry refers only to what is declared
/// strictly left of it, every solution is a monotype, and no name is declared
/// twice in the same role.
pub open spec fn wf(ctx: Seq<Member>) -> bool {
    &&& forall|i: int| 0 <= i < ctx.len() ==> #[trigger] entry_wf(ctx, i)
    &&& forall|i: int, j: int|
        0 <= i < j < ctx.len() ==> !#[trigger] same_binder(ctx[i], ctx[j])
}

impl From<Vec<CtxMember>> for Context {
    fn from(v: Vec<CtxMember>) -> (r: Self) {
        Context(v)
    }
}

impl FromSpecImpl<Vec<CtxMember>> for Context {
    open spec fn obeys_from_spec() -> bool {
        true
    }

    open spec fn from_spec(v: Vec<CtxMember>) -> Self {
        Context(v)
    }
}

impl From<Context> for Vec<CtxMember> {
    fn from(c: Context) -> (r: Self) {
        c.0
    }
}

impl FromSpecImpl<Context> for Vec<CtxMember> {
    open spec fn obeys_from_spec() -> bool {
        true
    }

    open spec fn from_spec(c: Context) -> Self {
        c.0
    }
}

impl PartialEq for Context {
    fn eq(&self, other: &Context) -> (r: bool) {
        if self.0.len() != other.0.len() {
            assert(self@.len() != other@.len());
            return false;
        }
        let mut i: usize = 0;
        while i < self.0.len()
            invariant
                i <= self.0.len(),
                self.0.len() == other.0.len(),
                forall|j: int| 0 <= j < i ==> self@[j] == other@[j],
            decreases self.0.len() - i,
        {
            if !(self.0[i] == other.0[i]) {
                assert(self@[i as int] != other@[i as int]);
                return false;
            }
            i += 1;
        }
        assert(self@ =~= other@);
        true
    }
}

impl Eq for Context {

}

impl PartialEqSpecImpl for Context {
    open spec fn obeys_eq_spec() -> bool {
        true
    }

    open spec fn eq_spec(&self, other: &Context) -> bool {
        self@ == other@
    }
}

impl Clone for Context {
    fn clone(&self) -> (r: Self)
        ensures
            r@ == self@,
    {
        let mut v: Vec<CtxMember> = Vec::new();
        let mut i: usize = 0;
        while i < self.0.len()
            invariant
                i <= self.0.len(),
                v@.len() == i,
                forall|j: int| 0 <= j < i ==> v@[j]@ == self.0@[j]@,
            decreases self.0.len() - i,
        {
            v.push(self.0[i].clone());
            i += 1;
        }
        let r = Context(v);
        assert(r@ =~= self@);
        r
    }
}

impl Context {
    /// The context with `c` added at its right end.
    pub fn add(self, c: CtxMember) -> (r: Self)
        ensures
            r@ == self@.push(c@),
    {
        let mut v = self.0;
        v.push(c);
        let r = Context(v);
        assert(r@ =~= self@.push(c@));
        r
    }

    /// The context followed by the entries of `other`.
    pub fn append(self, other: Context) -> (r: Self)
        ensures
            r@ == self@ + other@,
    {
        let mut v = self.0;
        let mut w = other.0;
        v.append(&mut w);
        let r = Context(v);
        assert(r@ =~= self@ + other@);
        r
    }

    /// The context with `c` added at its right end, where the innermost scope
    /// is. The same as `add`.
    pub fn tr_l(self, c: CtxMember) -> (r: Self)
        ensures
            r@ == self@.push(c@),
    {
        self.add(c)
    }

    /// The context with `c` put in front of its left end.
    pub fn tr_r(self, c: CtxMember) -> (r: Self)
        ensures
            r@ == seq![c@] + self@,
    {
        let mut v = self.0;
        v.insert(0, c);
        let r = Context(v);
        assert(r@ =~= seq![c@] + self@);
        r
    }

    /// Whether `c` is an entry of the context.
    pub fn elem(&self, c: &CtxMember) -> (r: bool)
        ensures
            r == self@.contains(c@),
    {
        let mut i: usize = 0;
        while i < self.0.len()
            invariant
                i <= self.0.len(),
                forall|j: int| 0 <= j < i ==> self@[j] != c@,
            decreases self.0.len() - i,
        {
            if self.0[i] == *c {
                assert(self@[i as int] == c@);
                return true;
            }
            i += 1;
        }
        false
    }

    /// The context without its leftmost entry.
    pub fn drop1(self) -> (r: Self)
        requires
            self@.len() > 0,
        ensures
            r@ == self@.drop_first(),
    {
        let mut v = self.0;
        v.remove(0);
        let r = Context(v);
        assert(r@ =~= self@.drop_first());
        r
    }

    /// The context without its `e` rightmost entries; empty where it has no
    /// more than `e`.
    #[allow(non_snake_case)]
    pub fn dropN(self, e: usize) -> (r: Self)
        ensures
            r@ == if e >= self@.len() {
                Seq::<Member>::empty()
            } else {
                self@.take(self@.len() - e)
            },
    {
        let mut v = self.0;
        if e >= v.len() {
            v.clear();
        } else {
            let remaining: usize = v.len() - e;
            v.truncate(remaining);
        }
        let r = Context(v);
        assert(r@ =~= if e >= self@.len() {
            Seq::<Member>::empty()
        } else {
            self@.take(self@.len() - e)
        });
        r
    }

    /// The position of the first occurrence of `c`, if there is one.
    fn position(&self, c: &CtxMember) -> (r: Option<usize>)
        ensures
            match r {
                Some(i) => i < self@.len() && i == index_of(self@, c@),
                None => !self@.contains(c@),
            },
    {
        let mut i: usize = 0;
        while i < self.0.len()
            invariant
                i <= self.0.len(),
                forall|j: int| 0 <= j < i ==> self@[j] != c@,
            decreases self.0.len() - i,
        {
            if self.0[i] == *c {
                proof {
                    lemma_index_of(self@, c@);
                    assert(self@[i as int] == c@);
                }
                return Some(i);
            }
            i += 1;
        }
        None
    }

    /// A copy of the entries from position `from` up to, not including, `to`.
    fn copy_range(&self, from: usize, to: usize) -> (r: Context)
        requires
            from <= to <= self@.len(),
        ensures
            r@ == self@.subrange(from as int, to as int),
    {
        let mut v: Vec<CtxMember> = Vec::new();
        let mut i: usize = from;
        while i < to
            invariant
                from <= i <= to <= self.0.len(),
                v@.len() == i - from,
                forall|j: int| 0 <= j < i - from ==> v@[j]@ == self.0@[from + j]@,
            decreases to - i,
        {
            v.push(self.0[i].clone());
            i += 1;
        }
        let r = Context(v);
        assert(r@ =~= self@.subrange(from as int, to as int));
        r
    }

    /// Splits the context at the first occurrence of `c`: the entries strictly
    /// left of it, and those from it on. Nothing where `c` does not occur.
    pub fn split_at(self, c: &CtxMember) -> (r: Option<(Context, Context)>)
        ensures
            r is Some <==> self@.contains(c@),
            r matches Some((prefix, remainder)) ==> {
                &&& prefix@ == left_of(self@, c@)
                &&& remainder@ == seq![c@] + right_of(self@, c@)
                &&& prefix@ + remainder@ == self@
                &&& !prefix@.contains(c@)
            },
    {
        proof {
            lemma_index_of(self@, c@);
        }
        match self.position(c) {
            Some(i) => {
                let prefix = self.copy_range(0, i);
                let remainder = self.copy_range(i, self.0.len());
                proof {
                    assert(prefix@ =~= left_of(self@, c@));
                    assert(remainder@ =~= seq![c@] + right_of(self@, c@));
                    assert(prefix@ + remainder@ =~= self@);
                    if prefix@.contains(c@) {
                        let j = choose|j: int| 0 <= j < prefix@.len() && prefix@[j] == c@;
                        assert(self@[j] == c@);
                    }
                }
                Some((prefix, remainder))
            },
            None => None,
        }
    }

    /// Cuts the first occurrence of `m` out of the context: the entries
    /// strictly left of it, and those strictly right of it. Nothing where `m`
    /// does not occur.
    pub fn hole(self, m: &CtxMember) -> (r: Option<(Context, Context)>)
        ensures
            r is Some <==> self@.contains(m@),
            r matches Some((left, right)) ==> {
                &&& left@ == left_of(self@, m@)
                &&& right@ == right_of(self@, m@)
                &&& left@.push(m@) + right@ == self@
                &&& !left@.contains(m@)
            },
    {
        match self.split_at(m) {
            Some((p, r)) => {
                let right = r.drop1();
                proof {
                    assert(right@ =~= right_of(self@, m@));
                    assert(p@.push(m@) + right@ =~= p@ + r@);
                }
                Some((p, right))
            },
            None => None,
        }
    }

    /// Cuts the first occurrence of `m1` and, right of it, the first
    /// occurrence of `m2` out of the context: the three parts that are left.
    /// Nothing where `m1` does not occur, or `m2` does not occur right of it.
    pub fn hole2(self, m1: &CtxMember, m2: &CtxMember) -> (r: Option<(Context, Context, Context)>)
        ensures
            r is Some <==> self@.contains(m1@) && right_of(self@, m1@).contains(m2@),
            r matches Some((a, b, c)) ==> {
                &&& a@ == left_of(self@, m1@)
                &&& b@ == left_of(right_of(self@, m1@), m2@)
                &&& c@ == right_of(right_of(self@, m1@), m2@)
                &&& a@.push(m1@) + b@.push(m2@) + c@ == self@
                &&& !a@.contains(m1@)
                &&& !b@.contains(m2@)
            },
    {
        match self.hole(m1) {
            Some((a, rest)) => match rest.hole(m2) {
                Some((b, c)) => {
                    proof {
                        assert(a@.push(m1@) + b@.push(m2@) + c@ =~= a@.push(m1@) + (b@.push(m2@)
                            + c@));
                    }
                    Some((a, b, c))
                },
                None => None,
            },
            None => None,
        }
    }
    /// The entries that the predicate `p` accepts, in their order. The
    /// predicate is asked once for each entry, from left to right.
    pub fn filter<P>(&self, p: P) -> (r: Vec<CtxMember>) where P: Fn(&&CtxMember) -> bool
        requires
            forall|i: int| 0 <= i < self.0@.len() ==> call_requires(p, (&&self.0@[i],)),
        ensures
            exists|keep: Seq<bool>|
                {
                    &&& keep.len() == self@.len()
                    &&& forall|i: int|
                        0 <= i < keep.len() ==> call_ensures(p, (&&self.0@[i],), #[trigger] keep[i])
                    &&& r@.map_values(|m: CtxMember| m@) == selection(self@, keep)
                },
    {
        let mut v: Vec<CtxMember> = Vec::new();
        let ghost mut keep: Seq<bool> = Seq::empty();
        let mut i: usize = 0;
        while i < self.0.len()
            invariant
                i <= self.0.len(),
                keep.len() == i,
                forall|j: int| 0 <= j < self.0@.len() ==> call_requires(p, (&&self.0@[j],)),
                forall|j: int|
                    0 <= j < i ==> call_ensures(p, (&&self.0@[j],), #[trigger] keep[j]),
                v@.map_values(|m: CtxMember| m@) == selection(self@.take(i as int), keep),
            decreases self.0.len() - i,
        {
            let entry = &self.0[i];
            let kept = p(&entry);
            proof {
                let before = keep;
                keep = keep.push(kept);
                assert(keep.drop_last() =~= before);
                assert(self@.take(i + 1).drop_last() =~= self@.take(i as int));
                assert(self@.take(i + 1).last() == self@[i as int]);
            }
            if kept {
                let ghost old_v = v@;
                v.push(entry.clone());
                assert(v@.map_values(|m: CtxMember| m@) =~= old_v.map_values(
                    |m: CtxMember| m@,
                ).push(self@[i as int]));
            }
            i += 1;
        }
        assert(self@.take(i as int) =~= self@);
        v
    }

    /// Whether some entry declares the existential variable `a`, solved or
    /// not.
    fn declares(&self, a: &TEVar) -> (r: bool)
        ensures
            r == declares_evar(self@, a@),
    {
        let mut i: usize = 0;
        while i < self.0.len()
            invariant
                i <= self.0.len(),
                forall|j: int| 0 <= j < i ==> !(#[trigger] self@[j]).declares_evar(a@),
            decreases self.0.len() - i,
        {
            let found = match &self.0[i] {
                CtxMember::EVar(b) => *b == *a,
                CtxMember::Solved(b, _) => *b == *a,
                _ => false,
            };
            if found {
                assert(self@[i as int].declares_evar(a@));
                return true;
            }
            i += 1;
        }
        false
    }

    /// The type that the context assumes for the term variable `e`, if it
    /// holds an assumption for it.
    pub fn has_assumption(&self, e: &EVar) -> (r: Option<Type>)
        requires
            at_most_one_assumption(self@, e@),
        ensures
            r is Some <==> exists|i: int|
                0 <= i < self@.len() && (#[trigger] self@[i]) is Assump && self@[i]->Assump_0
                    == e@,
            r matches Some(t) ==> self@.contains(Member::Assump(e@, t@)),
            (match r {
                Some(t) => Some(t@),
                None => None,
            }) == lookup_assumption(self@, e@),
    {
        let mut n: usize = self.0.len();
        assert(self@.take(n as int) =~= self@);
        while n > 0
            invariant
                n <= self.0.len(),
                lookup_assumption(self@, e@) == lookup_assumption(self@.take(n as int), e@),
                forall|j: int|
                    n <= j < self@.len() ==> !((#[trigger] self@[j]) is Assump
                        && self@[j]->Assump_0 == e@),
            decreases n,
        {
            n -= 1;
            assert(self@.take(n + 1).drop_last() =~= self@.take(n as int));
            assert(self@.take(n + 1).last() == self@[n as int]);
            match &self.0[n] {
                CtxMember::Assump(x, t) => {
                    if *x == *e {
                        let r = t.clone();
                        assert(self@[n as int] == Member::Assump(e@, r@));
                        return Some(r);
                    }
                },
                _ => {},
            }
        }
        None
    }

    /// The type that the existential variable `e` is solved to, if the context
    /// holds a solution of it.
    pub fn has_solution(&self, e: &TEVar) -> (r: Option<Type>)
        requires
            at_most_one_solution(self@, e@),
        ensures
            r is Some <==> exists|i: int|
                0 <= i < self@.len() && (#[trigger] self@[i]) is Solved && self@[i]->Solved_0
                    == e@,
            r matches Some(t) ==> self@.contains(Member::Solved(e@, t@)),
            (match r {
                Some(t) => Some(t@),
                None => None,
            }) == lookup_solution(self@, e@),
    {
        let mut n: usize = self.0.len();
        assert(self@.take(n as int) =~= self@);
        while n > 0
            invariant
                n <= self.0.len(),
                lookup_solution(self@, e@) == lookup_solution(self@.take(n as int), e@),
                forall|j: int|
                    n <= j < self@.len() ==> !((#[trigger] self@[j]) is Solved
                        && self@[j]->Solved_0 == e@),
            decreases n,
        {
            n -= 1;
            assert(self@.take(n + 1).drop_last() =~= self@.take(n as int));
            assert(self@.take(n + 1).last() == self@[n as int]);
            match &self.0[n] {
                CtxMember::Solved(x, t) => {
                    if *x == *e {
                        let r = t.clone();
                        assert(self@[n as int] == Member::Solved(e@, r@));
                        return Some(r);
                    }
                },
                _ => {},
            }
        }
        None
    }

    /// The type that the context assumes for the term variable `e`. The same
    /// as `has_assumption`.
    pub fn assump(&self, e: &EVar) -> (r: Option<Type>)
        requires
            at_most_one_assumption(self@, e@),
        ensures
            r is Some <==> exists|i: int|
                0 <= i < self@.len() && (#[trigger] self@[i]) is Assump && self@[i]->Assump_0
                    == e@,
            r matches Some(t) ==> self@.contains(Member::Assump(e@, t@)),
            (match r {
                Some(t) => Some(t@),
                None => None,
            }) == lookup_assumption(self@, e@),
    {
        self.has_assumption(e)
    }

    /// The type that the existential variable `e` is solved to. The same as
    /// `has_solution`.
    pub fn solution(&self, e: &TEVar) -> (r: Option<Type>)
        requires
            at_most_one_solution(self@, e@),
        ensures
            r is Some <==> exists|i: int|
                0 <= i < self@.len() && (#[trigger] self@[i]) is Solved && self@[i]->Solved_0
                    == e@,
            r matches Some(t) ==> self@.contains(Member::Solved(e@, t@)),
            (match r {
                Some(t) => Some(t@),
                None => None,
            }) == lookup_solution(self@, e@),
    {
        self.has_solution(e)
    }

    /// Whether the type `a` is well formed under the context.
    pub fn is_type_well_formed(&self, a: Type) -> (r: bool)
        ensures
            r == type_wf(self@, a@),
    {
        self.well_formed(&a)
    }

    /// Whether the type `a` is well formed under the context.
    pub fn well_formed(&self, a: &Type) -> (r: bool)
        ensures
            r == type_wf(self@, a@),
        decreases a,
    {
        match a {
            Type::Unit => true,
            Type::Var(v) => self.elem(&CtxMember::Var(v.clone())),
            Type::EVar(v) => self.declares(v),
            Type::Arr(x, y) => self.well_formed(x) && self.well_formed(y),
            Type::All(v, t) => {
                let extended = self.clone().add(CtxMember::Var(v.clone()));
                extended.well_formed(t)
            },
        }
    }

    /// `t` with the solutions among the first `n` entries applied to it.
    fn apply_prefix(&self, n: usize, t: &Type) -> (r: Type)
        requires
            n <= self@.len(),
        ensures
            r@ == apply(self@.take(n as int), t@),
        decreases n, t,
    {
        match t {
            Type::Unit => Type::Unit,
            Type::Var(v) => Type::Var(v.clone()),
            Type::EVar(a) => {
                let mut k: usize = n;
                while k > 0
                    invariant
                        k <= n <= self.0.len(),
                        t@ == Ty::EVar(a@),
                        apply(self@.take(n as int), Ty::EVar(a@)) == apply(
                            self@.take(k as int),
                            Ty::EVar(a@),
                        ),
                    decreases k,
                {
                    k -= 1;
                    assert(self@.take(k + 1).drop_last() =~= self@.take(k as int));
                    assert(self@.take(k + 1).last() == self@[k as int]);
                    match &self.0[k] {
                        CtxMember::Solved(b, tau) => {
                            if *b == *a {
                                assert(self@[k as int] == Member::Solved(b@, tau@));
                                assert(apply(self@.take(k + 1), Ty::EVar(a@)) == apply(
                                    self@.take(k as int),
                                    tau@,
                                ));
                                return self.apply_prefix(k, tau);
                            }
                        },
                        _ => {},
                    }
                }
                assert(self@.take(0).len() == 0);
                Type::EVar(a.clone())
            },
            Type::Arr(x, y) => Type::Arr(
                Box::new(self.apply_prefix(n, x)),
                Box::new(self.apply_prefix(n, y)),
            ),
            Type::All(v, b) => Type::All(v.clone(), Box::new(self.apply_prefix(n, b))),
        }
    }

    /// The type `a` with the context applied to it as a substitution: every
    /// solved existential variable gives way to its solution, itself applied.
    pub fn apply_context(&self, a: Type) -> (r: Type)
        requires
            wf(self@),
        ensures
            r@ == apply(self@, a@),
    {
        assert(self@.take(self@.len() as int) =~= self@);
        self.apply_prefix(self.0.len(), &a)
    }
}

} // verus!
