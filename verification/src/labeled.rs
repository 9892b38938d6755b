use vstd::prelude::*;

use crate::Label;

verus! {

/// A value bound to a label. The label is immutable once constructed; the
/// payload is reached only through the runtime's gated operations, which
/// taint the reading task or refuse the write.
#[derive(Clone)]
pub struct Labeled<D, L> {
    data: D,
    label: L,
}

impl<D, L: Label> Labeled<D, L> {
    /// The payload, as contracts speak of it.
    pub closed spec fn spec_data(&self) -> D {
        self.data
    }

    /// The label, as contracts speak of it.
    pub closed spec fn spec_label(&self) -> L {
        self.label
    }

    /// The label: public metadata, observing it does not taint.
    pub fn label(&self) -> (r: &L)
        ensures
            *r == self.spec_label(),
    {
        &self.label
    }

    /// Bind data to a label: the privileged primitive. Misuse can fabricate
    /// labels, so only trusted code creates labeled values this way; normal
    /// code receives them through the runtime.
    pub fn labeled(data: D, label: L) -> (r: Labeled<D, L>)
        ensures
            r.spec_data() == data,
            r.spec_label() == label,
    {
        Labeled { data, label }
    }

    /// Borrow the payload and the label. A privileged primitive: it bypasses
    /// the runtime's taint, which `unlabel_read` adds.
    pub fn unlabel(&self) -> (r: (&D, &L))
        ensures
            *r.0 == self.spec_data(),
            *r.1 == self.spec_label(),
    {
        (&self.data, &self.label)
    }

    /// Borrow the payload mutably, and the label. A privileged primitive: it
    /// bypasses the runtime's write guard, which `unlabel_write` adds.
    pub fn unlabel_mut(&mut self) -> ((d, l): (&mut D, &L))
        ensures
            *d == old(self).spec_data(),
            *l == old(self).spec_label(),
            final(self).spec_data() == *final(d),
            final(self).spec_label() == old(self).spec_label(),
    {
        (&mut self.data, &self.label)
    }
}

} // verus!
