//! The entries of a typing context and their mathematical model.

use vstd::prelude::*;
use vstd::std_specs::cmp::PartialEqSpecImpl;
use crate::expr::EVar;
use crate::types::{TEVar, TVar, Ty, Type};

verus! {

/// One entry of a typing context.
#[derive(Debug)]
pub enum CtxMember {
    /// Declares a rigid type variable, in scope from here rightward.
    Var(TVar),
    /// Assumes that a term variable has a type.
    Assump(EVar, Type),
    /// Declares an existential type variable that is not solved yet.
    EVar(TEVar),
    /// Records the monotype that an existential type variable is solved to.
    Solved(TEVar, Type),
    /// A scope fence, named after the existential variable it was pushed with.
    Marker(TEVar),
}

/// The mathematical model of a `CtxMember`.
pub ghost enum Member {
    Var(Seq<char>),
    Assump(Seq<char>, Ty),
    EVar(Seq<char>),
    Solved(Seq<char>, Ty),
    Marker(Seq<char>),
}

impl Member {
    /// The type that the entry carries, if it carries one.
    pub open spec fn carried(self) -> Option<Ty> {
        match self {
            Member::Assump(_, t) => Some(t),
            Member::Solved(_, t) => Some(t),
            _ => None,
        }
    }

    /// Whether the entry declares the existential variable `alpha`, solved or
    /// not.
    pub open spec fn declares_evar(self, alpha: Seq<char>) -> bool {
        match self {
            Member::EVar(a) => a == alpha,
            Member::Solved(a, _) => a == alpha,
            _ => false,
        }
    }

    /// The name that the entry brings into scope as a rigid variable, an
    /// existential variable or a marker. An assumption brings none.
    pub open spec fn bound_name(self) -> Option<Seq<char>> {
        match self {
            Member::Var(a) => Some(a),
            Member::EVar(a) => Some(a),
            Member::Solved(a, _) => Some(a),
            Member::Marker(a) => Some(a),
            Member::Assump(_, _) => None,
        }
    }

    /// Whether the entry is a declaration of an existential variable, solved
    /// or not.
    pub open spec fn is_existential(self) -> bool {
        self is EVar || self is Solved
    }
}

impl View for CtxMember {
    type V = Member;

    open spec fn view(&self) -> Member {
        match self {
            CtxMember::Var(v) => Member::Var(v@),
            CtxMember::Assump(x, t) => Member::Assump(x@, t@),
            CtxMember::EVar(a) => Member::EVar(a@),
            CtxMember::Solved(a, t) => Member::Solved(a@, t@),
            CtxMember::Marker(a) => Member::Marker(a@),
        }
    }
}

impl Clone for CtxMember {
    fn clone(&self) -> (r: Self)
        ensures
            r@ == self@,
    {
        match self {
            CtxMember::Var(v) => CtxMember::Var(v.clone()),
            CtxMember::Assump(x, t) => CtxMember::Assump(x.clone(), t.clone()),
            CtxMember::EVar(a) => CtxMember::EVar(a.clone()),
            CtxMember::Solved(a, t) => CtxMember::Solved(a.clone(), t.clone()),
            CtxMember::Marker(a) => CtxMember::Marker(a.clone()),
        }
    }
}

impl PartialEq for CtxMember {
    fn eq(&self, other: &CtxMember) -> (r: bool) {
        match (self, other) {
            (CtxMember::Var(a), CtxMember::Var(b)) => *a == *b,
            (CtxMember::Assump(a, t), CtxMember::Assump(b, u)) => *a == *b && *t == *u,
            (CtxMember::EVar(a), CtxMember::EVar(b)) => *a == *b,
            (CtxMember::Solved(a, t), CtxMember::Solved(b, u)) => *a == *b && *t == *u,
            (CtxMember::Marker(a), CtxMember::Marker(b)) => *a == *b,
            _ => false,
        }
    }
}

impl Eq for CtxMember {

}

impl PartialEqSpecImpl for CtxMember {
    open spec fn obeys_eq_spec() -> bool {
        true
    }

    open spec fn eq_spec(&self, other: &CtxMember) -> bool {
        self@ == other@
    }
}

impl CtxMember {
    /// The declaration of the rigid type variable that `v` converts to.
    pub fn mk_var<V: Into<TVar>>(v: V) -> (m: CtxMember)
        ensures
            m is Var,
            call_ensures(<V as Into<TVar>>::into, (v,), m->Var_0),
    {
        CtxMember::Var(v.into())
    }

    /// The assumption that the term variable that `v` converts to has type `t`.
    pub fn mk_assump<V: Into<EVar>>(v: V, t: Type) -> (m: CtxMember)
        ensures
            m is Assump,
            call_ensures(<V as Into<EVar>>::into, (v,), m->Assump_0),
            m->Assump_1 == t,
    {
        CtxMember::Assump(v.into(), t)
    }

    /// The declaration of the unsolved existential variable that `v` converts
    /// to.
    pub fn mk_evar<V: Into<TEVar>>(v: V) -> (m: CtxMember)
        ensures
            m is EVar,
            call_ensures(<V as Into<TEVar>>::into, (v,), m->EVar_0),
    {
        CtxMember::EVar(v.into())
    }

    /// The record that the existential variable that `v` converts to is solved
    /// to `t`.
    pub fn mk_solved<V: Into<TEVar>>(v: V, t: Type) -> (m: CtxMember)
        ensures
            m is Solved,
            call_ensures(<V as Into<TEVar>>::into, (v,), m->Solved_0),
            m->Solved_1 == t,
    {
        CtxMember::Solved(v.into(), t)
    }

    /// The type that the entry carries: that of an assumption or of a
    /// solution, and nothing for the other entries.
    pub fn get_type(self) -> (r: Option<Type>)
        ensures
            r == match self {
                CtxMember::Assump(_, t) => Some(t),
                CtxMember::Solved(_, t) => Some(t),
                _ => None,
            },
            (match r {
                Some(t) => Some(t@),
                None => None,
            }) == self@.carried(),
    {
        match self {
            CtxMember::Assump(_, t) => Some(t),
            CtxMember::Solved(_, t) => Some(t),
            _ => None,
        }
    }
}

} // verus!
