//! The operand stack and the one operation that combines its top two values.

use vstd::prelude::*;

verus! {

/// Why an evaluation produced no value.
#[derive(Debug, PartialEq, Eq)]
pub enum RpnError {
    /// A token is neither a number nor one of the four operators.
    InvalidToken(String),
    /// An operator was met while the stack held fewer than two operands.
    StackUnderflow,
    /// At the end of the input the stack held this many values, not one.
    FinalStack(usize),
}

/// How `apply2` may leave a stack that held `before`: with fewer than two
/// operands nothing changes and the outcome is an underflow; otherwise the
/// two topmost values are replaced by a value that `fun` may return for them,
/// the lower of the two as its left argument and the topmost as its right.
pub open spec fn combines<V, F: Fn(V, V) -> V>(
    fun: F,
    before: Seq<V>,
    after: Seq<V>,
    outcome: Result<(), RpnError>,
) -> bool {
    if before.len() < 2 {
        outcome == Err::<(), RpnError>(RpnError::StackUnderflow) && after == before
    } else {
        &&& outcome is Ok
        &&& after.len() == before.len() - 1
        &&& after.drop_last() == before.take(before.len() - 2)
        &&& fun.ensures((before[before.len() - 2], before[before.len() - 1]), after.last())
    }
}

/// Pops two operands, combines them with `fun` and pushes the result.
///
/// The value popped first is the right-hand argument of `fun`, the one
/// popped second its left-hand argument. A stack with fewer than two values
/// is left as it was.
pub fn apply2<V, F: Fn(V, V) -> V>(stack: &mut Vec<V>, fun: F) -> (r: Result<(), RpnError>)
    requires
        forall|x: V, y: V| fun.requires((x, y)),
    ensures
        combines(fun, old(stack)@, final(stack)@, r),
{
    if stack.len() < 2 {
        return Err(RpnError::StackUnderflow);
    }
    let ghost before = stack@;
    let y = stack.pop().unwrap();
    let x = stack.pop().unwrap();
    let z = fun(x, y);
    stack.push(z);
    assert(stack@.drop_last() =~= before.take(before.len() - 2));
    Ok(())
}

} // verus!
