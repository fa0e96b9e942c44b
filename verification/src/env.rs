//! The stack execution environment.
//!
//! The looping and aggregation algorithms consume an environment exposing
//! a value stack, a function stack, and an ambient fill value. Functions
//! are opaque callables to the algorithms, which only read their declared
//! signatures; here they are a small closed set of primitive callables,
//! each with an exactly specified stack effect.

use vstd::prelude::*;

use crate::array::{Array, ArrayType, Data};
use crate::error::{StackRole, UiuaError, UiuaResult};
use crate::model::{arr_view, arr_views, lemma_arr_views, lemma_box_cells, view_wf, ArrView, CellView};
use crate::pervade::{pervade, pervade_spec, PervasiveOp};
use crate::sig::Signature;

verus! {

/// A callable of the engine: a primitive with a fixed signature.
pub enum Function {
    /// Pops a value and pushes it back: signature (1, 1).
    Identity,
    /// Pops a value and drops it: signature (1, 0).
    Pop,
    /// Pops a value and pushes it twice: signature (1, 2).
    Duplicate,
    /// Pushes a copy of the held constant: signature (0, 1).
    PushConst(Array),
    /// Pops two values and pushes the pervasive operation of the first
    /// over the second: signature (2, 1).
    BinOp(PervasiveOp),
    /// Pops a value `x` and pushes `op(const, x)`: signature (1, 1).
    WithConstLeft(PervasiveOp, Array),
    /// Pops a value `x` and pushes `op(x, const)`: signature (1, 1).
    WithConstRight(PervasiveOp, Array),
    /// Pops a value and pushes it back as a rank-0 boxed array holding
    /// it: signature (1, 1).
    Boxed,
}

impl Function {
    /// The declared stack arity.
    pub open spec fn sig_spec(self) -> Signature {
        match self {
            Function::Identity => Signature { args: 1, outputs: 1 },
            Function::Pop => Signature { args: 1, outputs: 0 },
            Function::Duplicate => Signature { args: 1, outputs: 2 },
            Function::PushConst(_) => Signature { args: 0, outputs: 1 },
            Function::BinOp(_) => Signature { args: 2, outputs: 1 },
            Function::WithConstLeft(_, _) => Signature { args: 1, outputs: 1 },
            Function::WithConstRight(_, _) => Signature { args: 1, outputs: 1 },
            Function::Boxed => Signature { args: 1, outputs: 1 },
        }
    }

    /// Whether any held constant is well formed.
    pub open spec fn wf(self) -> bool {
        match self {
            Function::PushConst(c) => c.wf(),
            Function::WithConstLeft(_, c) => c.wf(),
            Function::WithConstRight(_, c) => c.wf(),
            _ => true,
        }
    }

    /// The declared signature of the callable.
    pub fn signature(&self) -> (r: Signature)
        ensures
            r == self.sig_spec(),
    {
        match self {
            Function::Identity => Signature { args: 1, outputs: 1 },
            Function::Pop => Signature { args: 1, outputs: 0 },
            Function::Duplicate => Signature { args: 1, outputs: 2 },
            Function::PushConst(_) => Signature { args: 0, outputs: 1 },
            Function::BinOp(_) => Signature { args: 2, outputs: 1 },
            Function::WithConstLeft(_, _) => Signature { args: 1, outputs: 1 },
            Function::WithConstRight(_, _) => Signature { args: 1, outputs: 1 },
            Function::Boxed => Signature { args: 1, outputs: 1 },
        }
    }
}

/// The model of a rank-0 boxed array holding the given value.
pub open spec fn box_scalar_view(v: ArrView) -> ArrView {
    ArrView { shape: Seq::empty(), kind: ArrayType::Value, cells: seq![CellView::B(v)] }
}

/// What calling a function does to a stack of values: it consumes exactly
/// `args` values and produces exactly `outputs`, or fails without a
/// promise about the stack.
pub open spec fn call_spec(f: Function, s: Seq<ArrView>) -> Result<Seq<ArrView>, UiuaError> {
    match f {
        Function::Identity => if s.len() >= 1 {
            Ok(s)
        } else {
            Err(UiuaError::StackUnderflow(StackRole::Argument))
        },
        Function::Pop => if s.len() >= 1 {
            Ok(s.drop_last())
        } else {
            Err(UiuaError::StackUnderflow(StackRole::Argument))
        },
        Function::Duplicate => if s.len() >= 1 {
            Ok(s.push(s.last()))
        } else {
            Err(UiuaError::StackUnderflow(StackRole::Argument))
        },
        Function::PushConst(c) => Ok(s.push(arr_view(c))),
        Function::BinOp(op) => if s.len() >= 2 {
            match pervade_spec(op, s.last(), s[s.len() - 2]) {
                Ok(v) => Ok(s.drop_last().drop_last().push(v)),
                Err(e) => Err(e),
            }
        } else {
            Err(UiuaError::StackUnderflow(StackRole::Argument))
        },
        Function::WithConstLeft(op, c) => if s.len() >= 1 {
            match pervade_spec(op, arr_view(c), s.last()) {
                Ok(v) => Ok(s.drop_last().push(v)),
                Err(e) => Err(e),
            }
        } else {
            Err(UiuaError::StackUnderflow(StackRole::Argument))
        },
        Function::WithConstRight(op, c) => if s.len() >= 1 {
            match pervade_spec(op, s.last(), arr_view(c)) {
                Ok(v) => Ok(s.drop_last().push(v)),
                Err(e) => Err(e),
            }
        } else {
            Err(UiuaError::StackUnderflow(StackRole::Argument))
        },
        Function::Boxed => if s.len() >= 1 {
            Ok(s.drop_last().push(box_scalar_view(s.last())))
        } else {
            Err(UiuaError::StackUnderflow(StackRole::Argument))
        },
    }
}

/// A successful call moves the stack length by exactly the signature's
/// net effect and leaves everything below the consumed values alone.
pub proof fn lemma_call_len(f: Function, s: Seq<ArrView>)
    ensures
        call_spec(f, s) is Ok ==> call_spec(f, s)->Ok_0.len() + f.sig_spec().args == s.len()
            + f.sig_spec().outputs,
        call_spec(f, s) is Ok ==> s.len() >= f.sig_spec().args,
{
}

/// The execution environment: a value stack, a function stack, and the
/// ambient fill value.
pub struct Uiua {
    /// The value stack; the last element is the top.
    pub stack: Vec<Array>,
    /// The function stack; the last element is popped first.
    pub function_stack: Vec<Function>,
    /// The ambient fill value, if set.
    pub fill: Option<Array>,
}

impl Uiua {
    /// The models of the stacked values, bottom first.
    pub open spec fn stack_view(self) -> Seq<ArrView> {
        arr_views(self.stack@)
    }

    /// The model of the fill value, if set.
    pub open spec fn fill_view(self) -> Option<ArrView> {
        match self.fill {
            Some(a) => Some(arr_view(a)),
            None => None,
        }
    }

    /// Well-formedness: every held array is well formed.
    pub open spec fn wf(self) -> bool {
        &&& forall|i: int| 0 <= i < self.stack@.len() ==> (#[trigger] self.stack@[i]).wf()
        &&& forall|i: int|
            0 <= i < self.function_stack@.len() ==> (#[trigger] self.function_stack@[i]).wf()
        &&& match self.fill {
            Some(a) => a.wf(),
            None => true,
        }
    }

    /// An empty environment.
    pub fn new() -> (r: Uiua)
        ensures
            r.stack_view() == Seq::<ArrView>::empty(),
            r.stack@.len() == 0,
            r.function_stack@.len() == 0,
            r.fill is None,
            r.wf(),
    {
        let r = Uiua { stack: Vec::new(), function_stack: Vec::new(), fill: None };
        proof {
            lemma_arr_views(r.stack@);
            assert(r.stack_view() =~= Seq::<ArrView>::empty());
        }
        r
    }

    /// Pushes a value.
    pub fn push(&mut self, v: Array)
        requires
            old(self).wf(),
            v.wf(),
        ensures
            final(self).stack_view() == old(self).stack_view().push(arr_view(v)),
            final(self).stack@.len() == old(self).stack@.len() + 1,
            final(self).function_stack == old(self).function_stack,
            final(self).fill == old(self).fill,
            final(self).wf(),
    {
        let ghost s0 = self.stack@;
        self.stack.push(v);
        proof {
            lemma_arr_views(s0);
            lemma_arr_views(self.stack@);
            assert(self.stack_view() =~= arr_views(s0).push(arr_view(v)));
        }
    }

    /// Pops the top value; underflow carries the requested role.
    pub fn pop(&mut self, role: StackRole) -> (r: Result<Array, UiuaError>)
        requires
            old(self).wf(),
        ensures
            final(self).function_stack == old(self).function_stack,
            final(self).fill == old(self).fill,
            final(self).wf(),
            match r {
                Ok(a) => {
                    &&& old(self).stack@.len() > 0
                    &&& arr_view(a) == old(self).stack_view().last()
                    &&& final(self).stack_view() == old(self).stack_view().drop_last()
                    &&& final(self).stack@.len() + 1 == old(self).stack@.len()
                    &&& a.wf()
                },
                Err(e) => {
                    &&& old(self).stack@.len() == 0
                    &&& e == UiuaError::StackUnderflow(role)
                    &&& final(self).stack@ == old(self).stack@
                },
            },
    {
        let ghost s0 = self.stack@;
        match self.stack.pop() {
            Some(a) => {
                proof {
                    lemma_arr_views(s0);
                    lemma_arr_views(self.stack@);
                    assert(a == s0[s0.len() - 1]);
                    assert(a.wf());
                    assert(arr_view(a) == arr_views(s0).last());
                    assert(self.stack@ =~= s0.drop_last());
                    assert(self.stack_view() =~= arr_views(s0).drop_last());
                }
                Ok(a)
            },
            None => Err(UiuaError::StackUnderflow(role)),
        }
    }

    /// Pops the next function to call.
    pub fn pop_function(&mut self) -> (r: Result<Function, UiuaError>)
        requires
            old(self).wf(),
        ensures
            final(self).stack == old(self).stack,
            final(self).fill == old(self).fill,
            final(self).wf(),
            match r {
                Ok(f) => {
                    &&& old(self).function_stack@.len() > 0
                    &&& f == old(self).function_stack@.last()
                    &&& final(self).function_stack@ == old(self).function_stack@.drop_last()
                    &&& f.wf()
                },
                Err(e) => {
                    &&& old(self).function_stack@.len() == 0
                    &&& e == UiuaError::StackUnderflow(StackRole::Function)
                    &&& final(self).function_stack@ == old(self).function_stack@
                },
            },
    {
        let ghost f0 = self.function_stack@;
        match self.function_stack.pop() {
            Some(f) => {
                proof {
                    assert(f == f0[f0.len() - 1]);
                    assert(f.wf());
                    assert(self.function_stack@ =~= f0.drop_last());
                }
                Ok(f)
            },
            None => Err(UiuaError::StackUnderflow(StackRole::Function)),
        }
    }

    /// Pushes a function to be popped by a modifier.
    pub fn push_function(&mut self, f: Function)
        requires
            old(self).wf(),
            f.wf(),
        ensures
            final(self).stack == old(self).stack,
            final(self).fill == old(self).fill,
            final(self).function_stack@ == old(self).function_stack@.push(f),
            final(self).wf(),
    {
        self.function_stack.push(f);
    }

    /// Takes the ambient fill value out, masking it.
    pub fn take_fill(&mut self) -> (r: Option<Array>)
        requires
            old(self).wf(),
        ensures
            final(self).stack == old(self).stack,
            final(self).function_stack == old(self).function_stack,
            final(self).fill is None,
            r == old(self).fill,
            final(self).wf(),
            match r {
                Some(a) => a.wf(),
                None => true,
            },
    {
        let mut f: Option<Array> = None;
        core::mem::swap(&mut f, &mut self.fill);
        f
    }

    /// Sets the ambient fill value.
    pub fn set_fill(&mut self, f: Option<Array>)
        requires
            old(self).wf(),
            match f {
                Some(a) => a.wf(),
                None => true,
            },
        ensures
            final(self).stack == old(self).stack,
            final(self).function_stack == old(self).function_stack,
            final(self).fill == f,
            final(self).wf(),
    {
        self.fill = f;
    }

    /// A copy of the ambient fill value, if set.
    pub fn fill_dup(&self) -> (r: Option<Array>)
        requires
            self.wf(),
        ensures
            match r {
                Some(a) => self.fill_view() == Some(arr_view(a)) && a.wf(),
                None => self.fill_view() is None,
            },
    {
        match &self.fill {
            Some(a) => Some(a.duplicate()),
            None => None,
        }
    }

    /// Calls a function: it consumes exactly its declared arguments from
    /// the stack and produces exactly its declared outputs, or fails,
    /// leaving already-committed stack effects in place.
    pub fn call(&mut self, f: &Function) -> (r: UiuaResult)
        requires
            old(self).wf(),
            f.wf(),
        ensures
            final(self).function_stack == old(self).function_stack,
            final(self).fill == old(self).fill,
            final(self).wf(),
            match r {
                Ok(()) => {
                    &&& call_spec(*f, old(self).stack_view()) is Ok
                    &&& final(self).stack_view() == call_spec(*f, old(self).stack_view())->Ok_0
                },
                Err(e) => {
                    &&& call_spec(*f, old(self).stack_view()) is Err
                    &&& e == call_spec(*f, old(self).stack_view())->Err_0
                },
            },
    {
        let ghost s0 = self.stack_view();
        match f {
            Function::Identity => {
                if self.stack.len() == 0 {
                    proof {
                        lemma_arr_views(self.stack@);
                    }
                    return Err(UiuaError::StackUnderflow(StackRole::Argument));
                }
                proof {
                    lemma_arr_views(self.stack@);
                }
                Ok(())
            },
            Function::Pop => {
                match self.pop(StackRole::Argument) {
                    Ok(_) => Ok(()),
                    Err(e) => {
                        proof {
                            lemma_arr_views(self.stack@);
                        }
                        Err(e)
                    },
                }
            },
            Function::Duplicate => {
                if self.stack.len() == 0 {
                    proof {
                        lemma_arr_views(self.stack@);
                    }
                    return Err(UiuaError::StackUnderflow(StackRole::Argument));
                }
                let ghost sv = self.stack@;
                let top = self.stack[self.stack.len() - 1].duplicate();
                proof {
                    lemma_arr_views(sv);
                    assert(arr_view(top) == s0.last());
                }
                self.push(top);
                Ok(())
            },
            Function::PushConst(c) => {
                let d = c.duplicate();
                self.push(d);
                Ok(())
            },
            Function::BinOp(op) => {
                if self.stack.len() <= 1 {
                    proof {
                        lemma_arr_views(self.stack@);
                    }
                    return Err(UiuaError::StackUnderflow(StackRole::Argument));
                }
                let a = match self.pop(StackRole::Argument) {
                    Ok(a) => a,
                    Err(e) => {
                        return Err(e);
                    },
                };
                let b = match self.pop(StackRole::Argument) {
                    Ok(b) => b,
                    Err(e) => {
                        return Err(e);
                    },
                };
                proof {
                    assert(arr_view(b) == s0[s0.len() - 2]) by {
                        assert(s0.drop_last().last() == s0[s0.len() - 2]);
                    }
                }
                match pervade(*op, &a, &b) {
                    Ok(v) => {
                        self.push(v);
                        Ok(())
                    },
                    Err(e) => Err(e),
                }
            },
            Function::WithConstLeft(op, c) => {
                if self.stack.len() == 0 {
                    proof {
                        lemma_arr_views(self.stack@);
                    }
                    return Err(UiuaError::StackUnderflow(StackRole::Argument));
                }
                let x = match self.pop(StackRole::Argument) {
                    Ok(x) => x,
                    Err(e) => {
                        return Err(e);
                    },
                };
                match pervade(*op, c, &x) {
                    Ok(v) => {
                        self.push(v);
                        Ok(())
                    },
                    Err(e) => Err(e),
                }
            },
            Function::WithConstRight(op, c) => {
                if self.stack.len() == 0 {
                    proof {
                        lemma_arr_views(self.stack@);
                    }
                    return Err(UiuaError::StackUnderflow(StackRole::Argument));
                }
                let x = match self.pop(StackRole::Argument) {
                    Ok(x) => x,
                    Err(e) => {
                        return Err(e);
                    },
                };
                match pervade(*op, &x, c) {
                    Ok(v) => {
                        self.push(v);
                        Ok(())
                    },
                    Err(e) => Err(e),
                }
            },
            Function::Boxed => {
                if self.stack.len() == 0 {
                    proof {
                        lemma_arr_views(self.stack@);
                    }
                    return Err(UiuaError::StackUnderflow(StackRole::Argument));
                }
                let x = match self.pop(StackRole::Argument) {
                    Ok(x) => x,
                    Err(e) => {
                        return Err(e);
                    },
                };
                let ghost xv = arr_view(x);
                let mut bv: Vec<Array> = Vec::new();
                bv.push(x);
                let ghost bvs = bv@;
                let b = Array { shape: Vec::new(), data: Data::Value(bv) };
                proof {
                    lemma_box_cells(bvs);
                    assert(arr_view(b).cells == crate::model::box_cells(bvs));
                    assert(arr_view(b).cells =~= seq![CellView::B(xv)]);
                    assert(arr_view(b) =~= box_scalar_view(xv));
                    assert(crate::model::cells_wf(arr_view(b).cells)) by {
                        crate::model::lemma_cells_wf(arr_view(b).cells);
                    }
                    assert(view_wf(arr_view(b)));
                }
                self.push(b);
                Ok(())
            },
        }
    }
}

/// Every primitive's declared arity is small.
pub proof fn lemma_sig_bounds(f: Function)
    ensures
        f.sig_spec().args <= 2,
        f.sig_spec().outputs <= 2,
{
}

} // verus!
