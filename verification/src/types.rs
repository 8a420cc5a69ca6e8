//! The grammar of types and its mathematical model.

use vstd::prelude::*;
use vstd::std_specs::cmp::PartialEqSpecImpl;

verus! {

/// The name of a rigid type variable.
pub type TVar = String;

/// The name of an existential type variable.
pub type TEVar = String;

/// A type of the calculus.
#[derive(Debug)]
pub enum Type {
    /// The unit type.
    Unit,
    /// A rigid type variable.
    Var(TVar),
    /// An existential type variable: a placeholder for an unknown monotype.
    EVar(TEVar),
    /// A function type, from domain to codomain.
    Arr(Box<Type>, Box<Type>),
    /// Universal quantification of the bound name over the body.
    All(TVar, Box<Type>),
}

/// The mathematical model of a `Type`: names are sequences of characters.
pub ghost enum Ty {
    Unit,
    Var(Seq<char>),
    EVar(Seq<char>),
    Arr(Box<Ty>, Box<Ty>),
    All(Seq<char>, Box<Ty>),
}

impl Ty {
    /// A monotype holds no quantifier.
    pub open spec fn is_mono(self) -> bool
        decreases self,
    {
        match self {
            Ty::Unit => true,
            Ty::Var(_) => true,
            Ty::EVar(_) => true,
            Ty::Arr(a, b) => a.is_mono() && b.is_mono(),
            Ty::All(_, _) => false,
        }
    }

    /// The number of nodes of the type.
    pub open spec fn size(self) -> nat
        decreases self,
    {
        match self {
            Ty::Unit => 1,
            Ty::Var(_) => 1,
            Ty::EVar(_) => 1,
            Ty::Arr(a, b) => 1 + a.size() + b.size(),
            Ty::All(_, t) => 1 + t.size(),
        }
    }

    /// The number of quantifiers in the type.
    pub open spec fn quantifiers(self) -> nat
        decreases self,
    {
        match self {
            Ty::Unit => 0,
            Ty::Var(_) => 0,
            Ty::EVar(_) => 0,
            Ty::Arr(a, b) => a.quantifiers() + b.quantifiers(),
            Ty::All(_, t) => 1 + t.quantifiers(),
        }
    }

    /// Whether the existential variable `alpha` occurs in the type.
    pub open spec fn mentions_evar(self, alpha: Seq<char>) -> bool
        decreases self,
    {
        match self {
            Ty::Unit => false,
            Ty::Var(_) => false,
            Ty::EVar(a) => a == alpha,
            Ty::Arr(a, b) => a.mentions_evar(alpha) || b.mentions_evar(alpha),
            Ty::All(_, t) => t.mentions_evar(alpha),
        }
    }

    /// The type with `to` in place of every free occurrence of the rigid
    /// variable `v`. An inner quantifier that binds `v` again shields its body.
    pub open spec fn subst(self, v: Seq<char>, to: Ty) -> Ty
        decreases self,
    {
        match self {
            Ty::Unit => Ty::Unit,
            Ty::Var(a) => if a == v { to } else { Ty::Var(a) },
            Ty::EVar(a) => Ty::EVar(a),
            Ty::Arr(a, b) => Ty::Arr(Box::new(a.subst(v, to)), Box::new(b.subst(v, to))),
            Ty::All(w, t) => if w == v {
                Ty::All(w, t)
            } else {
                Ty::All(w, Box::new(t.subst(v, to)))
            },
        }
    }
}

impl Type {
    /// The mathematical model of the type.
    pub open spec fn model(&self) -> Ty
        decreases self,
    {
        match self {
            Type::Unit => Ty::Unit,
            Type::Var(v) => Ty::Var(v@),
            Type::EVar(v) => Ty::EVar(v@),
            Type::Arr(a, b) => Ty::Arr(Box::new(a.model()), Box::new(b.model())),
            Type::All(v, t) => Ty::All(v@, Box::new(t.model())),
        }
    }
}

impl View for Type {
    type V = Ty;

    open spec fn view(&self) -> Ty {
        self.model()
    }
}

impl Clone for Type {
    fn clone(&self) -> (r: Self)
        ensures
            r@ == self@,
        decreases self,
    {
        match self {
            Type::Unit => Type::Unit,
            Type::Var(v) => Type::Var(v.clone()),
            Type::EVar(v) => Type::EVar(v.clone()),
            Type::Arr(a, b) => Type::Arr(Box::new((**a).clone()), Box::new((**b).clone())),
            Type::All(v, t) => Type::All(v.clone(), Box::new((**t).clone())),
        }
    }
}

impl PartialEq for Type {
    fn eq(&self, other: &Type) -> (r: bool)
        decreases self,
    {
        match (self, other) {
            (Type::Unit, Type::Unit) => true,
            (Type::Var(a), Type::Var(b)) => *a == *b,
            (Type::EVar(a), Type::EVar(b)) => *a == *b,
            (Type::Arr(a, b), Type::Arr(c, d)) => (**a).eq(&**c) && (**b).eq(&**d),
            (Type::All(v, t), Type::All(w, u)) => *v == *w && (**t).eq(&**u),
            _ => false,
        }
    }
}

impl Eq for Type {

}

impl PartialEqSpecImpl for Type {
    open spec fn obeys_eq_spec() -> bool {
        true
    }

    open spec fn eq_spec(&self, other: &Type) -> bool {
        self@ == other@
    }
}

impl Type {
    /// Whether the type is a monotype, that is, holds no quantifier.
    pub fn is_mono(&self) -> (r: bool)
        ensures
            r == self@.is_mono(),
        decreases self,
    {
        match self {
            Type::Unit => true,
            Type::Var(_) => true,
            Type::EVar(_) => true,
            Type::Arr(a, b) => a.is_mono() && b.is_mono(),
            Type::All(_, _) => false,
        }
    }

    /// Whether the existential variable `alpha` occurs in the type.
    pub fn mentions(&self, alpha: &TEVar) -> (r: bool)
        ensures
            r == self@.mentions_evar(alpha@),
        decreases self,
    {
        match self {
            Type::Unit => false,
            Type::Var(_) => false,
            Type::EVar(a) => *a == *alpha,
            Type::Arr(a, b) => a.mentions(alpha) || b.mentions(alpha),
            Type::All(_, t) => t.mentions(alpha),
        }
    }

    /// The type with `to` in place of every free occurrence of the rigid
    /// variable `v`.
    pub fn subst(&self, v: &TVar, to: &Type) -> (r: Type)
        ensures
            r@ == self@.subst(v@, to@),
        decreases self,
    {
        match self {
            Type::Unit => Type::Unit,
            Type::Var(a) => if *a == *v {
                to.clone()
            } else {
                Type::Var(a.clone())
            },
            Type::EVar(a) => Type::EVar(a.clone()),
            Type::Arr(a, b) => Type::Arr(Box::new(a.subst(v, to)), Box::new(b.subst(v, to))),
            Type::All(w, t) => if *w == *v {
                Type::All(w.clone(), Box::new((**t).clone()))
            } else {
                Type::All(w.clone(), Box::new(t.subst(v, to)))
            },
        }
    }
}

} // verus!
