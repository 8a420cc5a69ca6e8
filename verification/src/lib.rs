//! Algorithmic subtyping for a small calculus with higher-rank polymorphism.
//!
//! The engine works on an ordered typing context that records rigid type
//! variables, term-variable assumptions, existential type variables and their
//! solutions, and scope markers. Every function is specified over the
//! mathematical views of these data: `Ty` for a type, `Member` for a context
//! entry and `Seq<Member>` for a context.

pub mod context;
pub mod ctxmember;
pub mod expr;
pub mod laws;
pub mod lemmas;
pub mod rules;
pub mod scopes;
pub mod soundness;
pub mod state;
pub mod subtype;
pub mod surgery;
pub mod types;

pub use context::Context;
pub use ctxmember::{CtxMember, Member};
pub use expr::{EVar, Expr};
pub use state::{CheckState, State};
pub use subtype::is_subtype;
pub use types::{TEVar, TVar, Ty, Type};
