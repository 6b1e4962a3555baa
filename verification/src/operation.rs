use vstd::prelude::*;

verus! {

/// An operation registered on a stream, as the planner sees it.
///
/// The planner never looks inside an operation: it only asks whether two
/// operations are the same. An operation is therefore described by the kind of
/// computation it performs and the tensors it reads and writes; two operations
/// are the same exactly when all three agree.
#[derive(Clone, Copy, Debug, PartialEq, Eq, Structural, Hash)]
pub struct OperationIr {
    /// The computation performed (for instance a unary `log`).
    pub kind: u64,
    /// The tensor read by the operation.
    pub input: u64,
    /// The tensor written by the operation.
    pub out: u64,
}

impl OperationIr {
    /// Describe an operation by its kind, input tensor and output tensor.
    pub fn new(kind: u64, input: u64, out: u64) -> (op: OperationIr)
        ensures
            op.kind == kind,
            op.input == input,
            op.out == out,
    {
        OperationIr { kind, input, out }
    }
}

} // verus!
