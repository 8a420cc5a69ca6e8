//! The grammar of terms. The subtyping engine never inspects a term; the
//! grammar is here because context assumptions are indexed by term variables.

use vstd::prelude::*;
use vstd::std_specs::cmp::PartialEqSpecImpl;

verus! {

/// The name of a term variable.
pub type EVar = String;

/// A term of the calculus.
#[derive(Debug)]
pub enum Expr {
    /// The unit value.
    Unit,
    /// A term variable.
    Var(EVar),
    /// A term with a type annotation, kept in its written form.
    Ann(Box<Expr>, String),
    /// A function of one bound variable.
    Lam(EVar, Box<Expr>),
    /// An application of a function to an argument.
    App(Box<Expr>, Box<Expr>),
}

impl Expr {
    /// Whether two terms have the same shape and, at each place, names that
    /// read the same.
    pub open spec fn alike(&self, other: &Expr) -> bool
        decreases self,
    {
        match (self, other) {
            (Expr::Unit, Expr::Unit) => true,
            (Expr::Var(x), Expr::Var(y)) => x@ == y@,
            (Expr::Ann(e, t), Expr::Ann(f, u)) => e.alike(f) && t@ == u@,
            (Expr::Lam(x, e), Expr::Lam(y, f)) => x@ == y@ && e.alike(f),
            (Expr::App(e, a), Expr::App(f, b)) => e.alike(f) && a.alike(b),
            _ => false,
        }
    }
}

impl PartialEq for Expr {
    fn eq(&self, other: &Expr) -> (r: bool)
        decreases self,
    {
        match (self, other) {
            (Expr::Unit, Expr::Unit) => true,
            (Expr::Var(x), Expr::Var(y)) => *x == *y,
            (Expr::Ann(e, t), Expr::Ann(f, u)) => (**e).eq(&**f) && *t == *u,
            (Expr::Lam(x, e), Expr::Lam(y, f)) => *x == *y && (**e).eq(&**f),
            (Expr::App(e, a), Expr::App(f, b)) => (**e).eq(&**f) && (**a).eq(&**b),
            _ => false,
        }
    }
}

impl Eq for Expr {

}

impl PartialEqSpecImpl for Expr {
    open spec fn obeys_eq_spec() -> bool {
        true
    }

    open spec fn eq_spec(&self, other: &Expr) -> bool {
        self.alike(other)
    }
}

} // verus!
