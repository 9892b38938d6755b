use vstd::prelude::*;

use crate::dclabel::DCLabel;
use crate::dclabel::lemma_join_upper;
use crate::labeled::Labeled;

verus! {

/// A denied flow: the task's current label may not flow to the target.
/// Fatal to the task: the caller is expected to tear the task down rather
/// than resume user code under the old label.
#[derive(Clone, PartialEq, Eq, Structural, Debug)]
pub struct IfcViolation;

/// A task's ambient state: the current label, raised monotonically as the
/// task reads. Each task holds its own state; none is shared, so one task's
/// reads never taint another.
pub struct TaskState {
    current: DCLabel,
}

impl TaskState {
    /// The current label, as contracts speak of it.
    pub closed spec fn spec_current(&self) -> DCLabel {
        self.current
    }

    pub open spec fn wf(&self) -> bool {
        self.spec_current().wf()
    }

    /// A fresh task starts public: unrestricted secrecy, maximal integrity.
    pub fn new() -> (r: Self)
        ensures
            r.wf(),
            r.spec_current().sset() == Set::<Set<Seq<char>>>::empty(),
            r.spec_current().iset() == Set::<Set<Seq<char>>>::empty(),
    {
        TaskState { current: DCLabel::public() }
    }
}

/// A snapshot of the task's current label.
pub fn current_label(task: &TaskState) -> (r: DCLabel)
    ensures
        r@ == task.spec_current()@,
{
    task.current.clone()
}

/// Raise the current label by joining the given label into it. Monotone:
/// the old current label and the given one both flow to the new one.
pub fn taint(task: &mut TaskState, label: &DCLabel)
    requires
        old(task).wf(),
        label.wf(),
    ensures
        final(task).wf(),
        final(task).spec_current().is_join_of(&old(task).spec_current(), label),
        old(task).spec_current().can_flow_to_spec(&final(task).spec_current()),
        label.can_flow_to_spec(&final(task).spec_current()),
{
    let joined = task.current.join(label);
    task.current = joined;
    proof {
        lemma_join_upper(&old(task).spec_current(), label, &task.current);
    }
}

/// Check that the current label can flow to the target; an allocation at
/// that label would then be sound. Does not mutate the task.
pub fn guard_alloc(task: &TaskState, label: &DCLabel) -> (r: Result<(), IfcViolation>)
    ensures
        r is Ok <==> task.spec_current().can_flow_to_spec(label),
{
    if task.current.can_flow_to(label) {
        Ok(())
    } else {
        Err(IfcViolation)
    }
}

/// Gate a write to the target label: succeeds exactly when the current
/// label can flow there, and then taints the task with the target. On
/// refusal the task's state is unchanged.
pub fn guard_write(task: &mut TaskState, label: &DCLabel) -> (r: Result<(), IfcViolation>)
    requires
        old(task).wf(),
        label.wf(),
    ensures
        final(task).wf(),
        r is Ok <==> old(task).spec_current().can_flow_to_spec(label),
        r is Ok ==> final(task).spec_current().is_join_of(&old(task).spec_current(), label),
        r is Ok ==> old(task).spec_current().can_flow_to_spec(&final(task).spec_current()),
        r is Ok ==> label.can_flow_to_spec(&final(task).spec_current()),
        r is Err ==> *final(task) == *old(task),
{
    match guard_alloc(&*task, label) {
        Ok(_) => {
            taint(task, label);
            Ok(())
        },
        Err(e) => Err(e),
    }
}

/// Read access to a labeled container, paid for by taint.
pub trait LabeledRead<D> {
    /// The container's label.
    spec fn read_label(&self) -> DCLabel;

    /// The container's payload.
    spec fn read_data(&self) -> D;

    /// Borrow the payload, first raising the task's current label by the
    /// container's label: afterwards the container's label flows to the
    /// task's current label.
    fn unlabel_read<'a>(&'a self, task: &mut TaskState) -> (d: &'a D)
        requires
            old(task).wf(),
            self.read_label().wf(),
        ensures
            final(task).wf(),
            *d == self.read_data(),
            final(task).spec_current().is_join_of(
                &old(task).spec_current(),
                &self.read_label(),
            ),
            old(task).spec_current().can_flow_to_spec(&final(task).spec_current()),
            self.read_label().can_flow_to_spec(&final(task).spec_current()),
    ;
}

impl<D> LabeledRead<D> for Labeled<D, DCLabel> {
    open spec fn read_label(&self) -> DCLabel {
        self.spec_label()
    }

    open spec fn read_data(&self) -> D {
        self.spec_data()
    }

    fn unlabel_read<'a>(&'a self, task: &mut TaskState) -> (d: &'a D) {
        let (d, l) = self.unlabel();
        taint(task, l);
        d
    }
}

/// Write access to a labeled container, gated by the flow check.
pub trait LabeledWrite<D> {
    /// The container's label.
    spec fn write_label(&self) -> DCLabel;

    /// The container's payload.
    spec fn write_data(&self) -> D;

    /// Borrow the payload mutably. Succeeds exactly when the task's current
    /// label can flow to the container's label, and then taints the task
    /// with it; on refusal nothing changes and the task should be torn
    /// down. The label itself is never mutated.
    fn unlabel_write<'a>(&'a mut self, task: &mut TaskState) -> (r: Result<
        &'a mut D,
        IfcViolation,
    >)
        requires
            old(task).wf(),
            old(self).write_label().wf(),
        ensures
            final(task).wf(),
            r is Ok <==> old(task).spec_current().can_flow_to_spec(&old(self).write_label()),
            r is Ok ==> final(task).spec_current().is_join_of(
                &old(task).spec_current(),
                &old(self).write_label(),
            ),
            r is Ok ==> old(task).spec_current().can_flow_to_spec(
                &final(task).spec_current(),
            ),
            r is Ok ==> old(self).write_label().can_flow_to_spec(
                &final(task).spec_current(),
            ),
            r is Err ==> *final(task) == *old(task),
            r is Err ==> final(self).write_data() == old(self).write_data(),
            final(self).write_label() == old(self).write_label(),
    ;
}

impl<D> LabeledWrite<D> for Labeled<D, DCLabel> {
    open spec fn write_label(&self) -> DCLabel {
        self.spec_label()
    }

    open spec fn write_data(&self) -> D {
        self.spec_data()
    }

    fn unlabel_write<'a>(&'a mut self, task: &mut TaskState) -> (r: Result<
        &'a mut D,
        IfcViolation,
    >) {
        let (d, l) = self.unlabel_mut();
        match guard_write(task, l) {
            Ok(_) => Ok(d),
            Err(e) => Err(e),
        }
    }
}

} // verus!
