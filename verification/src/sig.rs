//! Stack-arity signatures of callable functions.
//!
//! The engine never inspects a function's body: it only reads and
//! algebraically composes signatures.

use vstd::prelude::*;

verus! {

/// The `(args, outputs)` stack-arity contract of a callable: calling it
/// consumes exactly `args` stack values and produces exactly `outputs`.
#[derive(Clone, Copy, Debug, PartialEq, Eq, Structural)]
pub struct Signature {
    /// How many stack values the function consumes.
    pub args: usize,
    /// How many stack values the function produces.
    pub outputs: usize,
}

/// What composing a signature with `other` yields: the arity of running
/// `self`'s function first and `other`'s function on what it leaves.
pub open spec fn compose_spec(a: Signature, b: Signature) -> Signature {
    Signature {
        args: (a.args + if b.args > a.outputs {
            (b.args - a.outputs) as usize
        } else {
            0
        }) as usize,
        outputs: (b.outputs + if a.outputs > b.args {
            (a.outputs - b.args) as usize
        } else {
            0
        }) as usize,
    }
}

impl Signature {
    /// Makes a signature from argument and output counts.
    pub fn new(args: usize, outputs: usize) -> (r: Self)
        ensures
            r == (Signature { args, outputs }),
    {
        Signature { args, outputs }
    }

    /// The arity of the function that runs `self`'s function first, then
    /// `other`'s function on the resulting stack.
    pub fn compose(self, other: Self) -> (r: Self)
        requires
            self.args + other.args <= usize::MAX,
            self.outputs + other.outputs <= usize::MAX,
        ensures
            r == compose_spec(self, other),
    {
        let args = self.args + other.args.saturating_sub(self.outputs);
        let outputs = other.outputs + self.outputs.saturating_sub(other.args);
        Signature { args, outputs }
    }
}

/// Composition preserves the net stack change: the composed signature is
/// balanced exactly when the two nets cancel.
pub proof fn lemma_compose_net(a: Signature, b: Signature)
    requires
        a.args + b.args <= usize::MAX,
        a.outputs + b.outputs <= usize::MAX,
    ensures
        compose_spec(a, b).args + a.outputs + b.outputs == compose_spec(a, b).outputs + a.args
            + b.args,
{
}


} // verus!
