use vstd::prelude::*;

verus! {

/// The speaks-for preorder on privilege descriptions: whether one
/// description's authority covers another's.
pub trait SpeaksFor: Sized {
    /// What the implementation's answer means; the executable check agrees
    /// with it.
    spec fn speaks_for_spec(&self, rhs: &Self) -> bool;

    /// Whether this description speaks for `rhs`.
    fn speaks_for(&self, rhs: &Self) -> (r: bool)
        ensures
            r == self.speaks_for_spec(rhs),
    ;
}

/// What a privilege description may do to the flow relation. Sound
/// implementations return from `downgrade` a label below the input, and
/// keep `can_flow_to_p` reflexive and transitive.
pub trait PrivilegeDescription {
    type Label;

    /// Weaken a label under this authority.
    fn downgrade(&self, rhs: &Self::Label) -> Self::Label;

    /// The flow relation relaxed by the exercised authority.
    fn can_flow_to_p(&self, lhs: &Self::Label, rhs: &Self::Label) -> bool;
}

/// An unforgeable token of authority wrapping a privilege description.
/// There is no public constructor: a privilege is only obtained from
/// another privilege, by delegation along the speaks-for preorder.
pub struct Privilege<P> {
    inner_desc: P,
}

impl<P> Privilege<P> {
    /// The wrapped description, as contracts speak of it.
    pub closed spec fn spec_desc(&self) -> P {
        self.inner_desc
    }
}

impl<P: SpeaksFor> Privilege<P> {
    /// Delegate to a target description: granted exactly when this
    /// privilege's description speaks for the target, and the derived
    /// privilege then wraps the target. Refusal is non-fatal.
    pub fn delegate(&self, target: P) -> (r: Option<Privilege<P>>)
        ensures
            r is Some <==> self.spec_desc().speaks_for_spec(&target),
            r is Some ==> r.unwrap().spec_desc() == target,
    {
        if self.inner_desc.speaks_for(&target) {
            Some(Privilege { inner_desc: target })
        } else {
            None
        }
    }
}

} // verus!
