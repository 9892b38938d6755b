use vstd::prelude::*;

pub mod conjunction;
pub mod dclabel;
pub mod disjunction;
pub mod labeled;
pub mod order;
pub mod privilege;
pub mod runtime;
pub mod twolevel;

verus! {

/// A `Label` behaves as a lattice.
///
/// It defines a partially ordered set where each pair of values has a `join`
/// (least upper bound), a `meet` (greatest lower bound), and a partial order
/// (`can_flow_to`). These operations express information flow relationships
/// between labels.
pub trait Label: Sized {
    /// The label's validity: what the lattice operations ask for and keep.
    spec fn lwf(&self) -> bool;

    /// Compute the least upper bound of two labels: the lowest label that both
    /// operands can flow to.
    fn join(&self, rhs: &Self) -> (r: Self)
        requires
            self.lwf(),
            rhs.lwf(),
        ensures
            r.lwf(),
    ;

    /// Compute the greatest lower bound of two labels: the highest label that
    /// can flow to both operands.
    fn meet(&self, rhs: &Self) -> (r: Self)
        requires
            self.lwf(),
            rhs.lwf(),
        ensures
            r.lwf(),
    ;

    /// The can-flow-to relation: an entity labeled `self` may affect an entity
    /// labeled `rhs` only if `self.can_flow_to(rhs)`. It is a partial order:
    /// reflexive, antisymmetric and transitive.
    fn can_flow_to(&self, rhs: &Self) -> bool
        requires
            self.lwf(),
            rhs.lwf(),
    ;
}

} // verus!
