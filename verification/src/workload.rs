//! A workload: the ordered operation sequence that is a test.

use vstd::prelude::*;
use crate::operation::Operation;

verus! {

/// An ordered sequence of operations.
#[derive(Debug, Clone, PartialEq)]
pub struct Workload {
    pub ops: Vec<Operation>,
}

impl Workload {
    /// The empty workload.
    pub fn new() -> (r: Workload)
        ensures
            r.ops@ =~= Seq::<Operation>::empty(),
    {
        Workload { ops: Vec::new() }
    }

    /// Appends one operation.
    pub fn push(&mut self, op: Operation)
        ensures
            final(self).ops@ == old(self).ops@.push(op),
    {
        self.ops.push(op);
    }

    /// The number of operations.
    pub fn len(&self) -> (r: usize)
        ensures
            r == self.ops@.len(),
    {
        self.ops.len()
    }

    /// A deterministic name for the workload: the decimal of a rolling
    /// hash of its rendered program, so identical workloads share a
    /// report directory.
    pub fn generate_name(&self) -> (r: String)
        requires
            forall|i: int|
                0 <= i < self.ops@.len() ==> ((#[trigger] self.ops@[i]) matches Operation::Open {
                    path,
                    des,
                } ==> des.0 < usize::MAX),
        ensures
            r@ == crate::text::dec_digits(
                crate::text::poly_hash(crate::encode::encode_chars(self.ops@)) as int,
            ),
    {
        let text = self.encode_c();
        let h = crate::text::hash_chars(text.as_str());
        crate::text::decimal_string(h)
    }
}

} // verus!
