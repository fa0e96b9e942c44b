//! Algorithms for looping modifiers: bounded and fixpoint repetition, the
//! conditional do-loop, and partitioning/grouping with exact inverses.

use vstd::prelude::*;

use crate::array::{Array, ArrayType, Data};
use crate::env::{call_spec, lemma_call_len, Function, Uiua};
use crate::error::{StackRole, UiuaError, UiuaResult};
use crate::model::{
    arr_view, arr_views, count, lemma_arr_views, lemma_count_split, lemma_row_wf, lemma_slice_wf,
    rows_uniform, stacked, view_wf, ArrView, CellView,
};
use crate::sig::Signature;

verus! {

/// The number standing for an infinite repetition count.
pub const INFINITY: i64 = i64::MAX;

/// Whether a value can serve as a repetition count: a number scalar.
pub open spec fn is_count_value(v: ArrView) -> bool {
    v.kind is Num && v.shape.len() == 0
}

/// The number held by a count scalar.
pub open spec fn count_value(v: ArrView) -> i64 {
    v.cells[0]->N_0
}

/// The stack after calling `f` exactly `n` times in sequence; an error
/// aborts the remaining calls.
pub open spec fn repeat_finite(f: Function, n: nat, s: Seq<ArrView>) -> Result<
    Seq<ArrView>,
    UiuaError,
>
    decreases n,
{
    if n == 0 {
        Ok(s)
    } else {
        match call_spec(f, s) {
            Ok(t) => repeat_finite(f, (n - 1) as nat, t),
            Err(e) => Err(e),
        }
    }
}

/// The stack after `k` fixpoint steps: each step is one call of `f`.
pub open spec fn fix_iter(f: Function, s: Seq<ArrView>, k: nat) -> Result<Seq<ArrView>, UiuaError>
    decreases k,
{
    if k == 0 {
        Ok(s)
    } else {
        match fix_iter(f, s, (k - 1) as nat) {
            Ok(t) => call_spec(f, t),
            Err(e) => Err(e),
        }
    }
}

/// Whether the fixpoint iteration converges at step `k`: the call at step
/// `k` succeeds and returns a top value equal to the one before it.
pub open spec fn fix_converged_at(f: Function, s: Seq<ArrView>, k: nat) -> bool {
    &&& fix_iter(f, s, k) is Ok
    &&& fix_iter(f, s, (k + 1) as nat) is Ok
    &&& fix_iter(f, s, k)->Ok_0.len() > 0
    &&& fix_iter(f, s, (k + 1) as nat)->Ok_0.len() > 0
    &&& fix_iter(f, s, (k + 1) as nat)->Ok_0.last() == fix_iter(f, s, k)->Ok_0.last()
}

/// Whether `k` is the first step at which the fixpoint iteration
/// converges.
pub open spec fn fix_stops_at(f: Function, s: Seq<ArrView>, k: nat) -> bool {
    &&& forall|j: nat| j < k ==> !fix_converged_at(f, s, j)
    &&& fix_converged_at(f, s, k)
}

/// The number of fixpoint steps attempted before the iteration is
/// abandoned as non-convergent.
pub open spec fn fix_step_bound() -> nat {
    0xFFFF_FFFF_FFFF_FFFF as nat
}

/// What fixpoint repetition yields, started on a stack whose top is the
/// initial value.
pub open spec fn fix_ensures(f: Function, s: Seq<ArrView>, r: UiuaResult, out: Seq<ArrView>) -> bool {
    let sig = f.sig_spec();
    if sig.args == 0 || sig.args != sig.outputs {
        r == Err::<(), UiuaError>(UiuaError::SignatureError(sig)) && out == s
    } else if s.len() == 0 {
        r == Err::<(), UiuaError>(UiuaError::StackUnderflow(StackRole::Argument)) && out == s
    } else {
        match r {
            Ok(()) => exists|k: nat|
                #[trigger] fix_stops_at(f, s, k) && out == fix_iter(f, s, (k + 1) as nat)->Ok_0,
            Err(e) => (exists|k: nat|
                (forall|j: nat| j < k ==> !fix_converged_at(f, s, j)) && #[trigger] fix_iter(
                    f,
                    s,
                    k,
                ) is Ok && fix_iter(f, s, (k + 1) as nat) == Err::<Seq<ArrView>, UiuaError>(e)) || (e
                == UiuaError::DomainError && (forall|j: nat|
                j < fix_step_bound() ==> !fix_converged_at(f, s, j))),
        }
    }
}

/// What bounded repetition yields.
pub open spec fn finite_ensures(
    f: Function,
    n: nat,
    s: Seq<ArrView>,
    r: UiuaResult,
    out: Seq<ArrView>,
) -> bool {
    match repeat_finite(f, n, s) {
        Ok(t) => r == Ok::<(), UiuaError>(()) && out == t,
        Err(e) => r == Err::<(), UiuaError>(e),
    }
}

/// Pops a function and a repetition count, then calls the function that
/// many times; an infinite count repeats to convergence of the top value.
///
/// The count must be a natural number scalar or [`INFINITY`]; the
/// converging function must take at least one argument and have a net
/// stack change of 0.
#[verifier::rlimit(100)]
pub fn repeat(env: &mut Uiua) -> (r: UiuaResult)
    requires
        old(env).wf(),
    ensures
        final(env).wf(),
        final(env).fill == old(env).fill,
        ({
            let fns = old(env).function_stack@;
            let s = old(env).stack_view();
            &&& (fns.len() == 0 ==> r == Err::<(), UiuaError>(
                UiuaError::StackUnderflow(StackRole::Function),
            ) && final(env).stack_view() == s && final(env).function_stack@ == fns)
            &&& (fns.len() > 0 ==> final(env).function_stack@ == fns.drop_last() && ({
                let f = fns.last();
                &&& (s.len() == 0 ==> r == Err::<(), UiuaError>(
                    UiuaError::StackUnderflow(StackRole::RepetitionCount),
                ) && final(env).stack_view() == s)
                &&& (s.len() > 0 ==> ({
                    let nv = s.last();
                    let rest = s.drop_last();
                    &&& (!is_count_value(nv) ==> r == Err::<(), UiuaError>(UiuaError::DomainError)
                        && final(env).stack_view() == rest)
                    &&& (is_count_value(nv) && count_value(nv) < 0 ==> r == Err::<(), UiuaError>(
                        UiuaError::DomainError,
                    ) && final(env).stack_view() == rest)
                    &&& (is_count_value(nv) && count_value(nv) == INFINITY ==> fix_ensures(
                        f,
                        rest,
                        r,
                        final(env).stack_view(),
                    ))
                    &&& (is_count_value(nv) && 0 <= count_value(nv) && count_value(nv) != INFINITY
                        ==> finite_ensures(f, count_value(nv) as nat, rest, r, final(env).stack_view()))
                }))
            }))
        }),
{
    let f = match env.pop_function() {
        Ok(f) => f,
        Err(e) => {
            return Err(e);
        },
    };
    let cv = match env.pop(StackRole::RepetitionCount) {
        Ok(v) => v,
        Err(e) => {
            return Err(e);
        },
    };
    let is_num_scalar = match (&cv.data, cv.shape.len()) {
        (Data::Num(_), 0) => true,
        _ => false,
    };
    if !is_num_scalar {
        return Err(UiuaError::DomainError);
    }
    let m: i64 = match &cv.data {
        Data::Num(b) => {
            proof {
                assert(arr_view(cv).cells.len() == crate::model::count(arr_view(cv).shape));
                assert(arr_view(cv).cells[0] == crate::model::CellView::N(b@[0]));
            }
            b[0]
        },
        _ => {
            proof {
                assert(false);
            }
            0
        },
    };
    if m < 0 {
        return Err(UiuaError::DomainError);
    }
    let ghost rest = old(env).stack_view().drop_last();
    proof {
        assert(env.stack_view() == rest);
    }
    if m == INFINITY {
        // fixpoint repetition
        let sig = f.signature();
        if sig.args == 0 || sig.args != sig.outputs {
            return Err(UiuaError::SignatureError(sig));
        }
        let prev0 = match env.pop(StackRole::Argument) {
            Ok(v) => v,
            Err(e) => {
                return Err(e);
            },
        };
        let mut prev = prev0;
        env.push(prev.duplicate());
        let ghost s0 = rest;
        proof {
            assert(env.stack_view() =~= s0);
            assert(fix_iter(f, s0, 0) == Ok::<Seq<ArrView>, UiuaError>(s0));
        }
        let ghost mut k: nat = 0;
        let mut fuel: u64 = u64::MAX;
        loop
            invariant
                env.wf(),
                f.wf(),
                f.sig_spec().args == f.sig_spec().outputs,
                f.sig_spec().args >= 1,
                env.fill == old(env).fill,
                env.function_stack@ == old(env).function_stack@.drop_last(),
                old(env).function_stack@.len() > 0,
                old(env).stack_view().len() > 0,
                f == old(env).function_stack@.last(),
                is_count_value(old(env).stack_view().last()),
                count_value(old(env).stack_view().last()) == INFINITY,
                s0 == old(env).stack_view().drop_last(),
                s0.len() > 0,
                fix_iter(f, s0, k) == Ok::<Seq<ArrView>, UiuaError>(env.stack_view()),
                env.stack@.len() > 0,
                env.stack_view().len() > 0,
                arr_view(prev) == env.stack_view().last(),
                k + fuel == fix_step_bound(),
                forall|j: nat| j < k ==> !fix_converged_at(f, s0, j),
            decreases fuel,
        {
            if fuel == 0 {
                return Err(UiuaError::DomainError);
            }
            fuel = fuel - 1;
            let ghost cur = env.stack_view();
            match env.call(&f) {
                Ok(()) => {},
                Err(e) => {
                    proof {
                        assert(fix_iter(f, s0, (k + 1) as nat) == Err::<Seq<ArrView>, UiuaError>(
                            e,
                        ));
                    }
                    return Err(e);
                },
            }
            proof {
                lemma_call_len(f, cur);
                assert(fix_iter(f, s0, (k + 1) as nat) == Ok::<Seq<ArrView>, UiuaError>(
                    env.stack_view(),
                ));
            }
            let ghost t = env.stack_view();
            let next = match env.pop(StackRole::ConvergingResult) {
                Ok(v) => v,
                Err(_) => {
                    proof {
                        assert(false);
                    }
                    return Err(UiuaError::DomainError);
                },
            };
            let converged = next.array_eq(&prev);
            if converged {
                env.push(next);
                proof {
                    assert(env.stack_view() =~= t);
                    assert(fix_converged_at(f, s0, k)) by {
                        assert(fix_iter(f, s0, k)->Ok_0.last() == arr_view(prev));
                        assert(fix_iter(f, s0, (k + 1) as nat)->Ok_0.last() == arr_view(prev));
                    }
                    assert(fix_stops_at(f, s0, k));
                }
                return Ok(());
            } else {
                let d = next.duplicate();
                env.push(d);
                prev = next;
                proof {
                    assert(env.stack_view() =~= t);
                    assert(!fix_converged_at(f, s0, k)) by {
                        assert(fix_iter(f, s0, (k + 1) as nat)->Ok_0.last() == arr_view(prev));
                    }
                    assert forall|j: nat| j < k + 1 implies !fix_converged_at(f, s0, j) by {}
                    k = k + 1nat;
                }
            }
        }
    } else {
        let n: u64 = m as u64;
        let mut i: u64 = 0;
        let ghost nt = m as nat;
        while i < n
            invariant
                env.wf(),
                f.wf(),
                i <= n,
                nt == n,
                env.fill == old(env).fill,
                env.function_stack@ == old(env).function_stack@.drop_last(),
                old(env).function_stack@.len() > 0,
                old(env).stack_view().len() > 0,
                f == old(env).function_stack@.last(),
                is_count_value(old(env).stack_view().last()),
                count_value(old(env).stack_view().last()) == nt,
                0 <= nt < INFINITY,
                rest == old(env).stack_view().drop_last(),
                repeat_finite(f, nt, rest) == repeat_finite(
                    f,
                    (nt - i) as nat,
                    env.stack_view(),
                ),
            decreases n - i,
        {
            let ghost cur = env.stack_view();
            match env.call(&f) {
                Ok(()) => {},
                Err(e) => {
                    proof {
                        assert(repeat_finite(f, (nt - i) as nat, cur) == Err::<
                            Seq<ArrView>,
                            UiuaError,
                        >(e));
                    }
                    return Err(e);
                },
            }
            proof {
                assert(repeat_finite(f, (nt - i) as nat, cur) == repeat_finite(
                    f,
                    (nt - i - 1) as nat,
                    env.stack_view(),
                ));
            }
            i += 1;
        }
        proof {
            assert(repeat_finite(f, nt, rest) == Ok::<Seq<ArrView>, UiuaError>(env.stack_view()));
        }
        Ok(())
    }
}

/// One pass of the do-loop from a given stack: duplicate the top
/// `cc` values, call the condition `g`, pop the boolean flag, and either
/// stop or call the body `f`.
pub ghost enum DoStep {
    /// The pass failed with an error.
    Fail(UiuaError),
    /// The flag was false: the loop stops with this stack.
    Stop(Seq<ArrView>),
    /// The flag was true and the body ran: the loop goes on from this
    /// stack.
    Next(Seq<ArrView>),
}

/// Whether a value can serve as a boolean condition: a number scalar
/// holding 0 or 1.
pub open spec fn is_bool_value(v: ArrView) -> bool {
    v.kind is Num && v.shape.len() == 0 && (v.cells[0]->N_0 == 0 || v.cells[0]->N_0 == 1)
}

/// The truth of a boolean condition value.
pub open spec fn bool_value(v: ArrView) -> bool {
    v.cells[0]->N_0 == 1
}

/// One pass of the do-loop.
pub open spec fn do_step(f: Function, g: Function, cc: nat, s: Seq<ArrView>) -> DoStep {
    if s.len() < cc {
        DoStep::Fail(UiuaError::StackUnderflow(StackRole::Argument))
    } else {
        let s1 = s + s.subrange(s.len() - cc, s.len() as int);
        match call_spec(g, s1) {
            Err(e) => DoStep::Fail(e),
            Ok(t) => {
                if t.len() == 0 {
                    DoStep::Fail(UiuaError::StackUnderflow(StackRole::DoCondition))
                } else if !is_bool_value(t.last()) {
                    DoStep::Fail(UiuaError::DomainError)
                } else if !bool_value(t.last()) {
                    DoStep::Stop(t.drop_last())
                } else {
                    match call_spec(f, t.drop_last()) {
                        Err(e) => DoStep::Fail(e),
                        Ok(u) => DoStep::Next(u),
                    }
                }
            },
        }
    }
}

/// The stack after `k` continuing passes of the do-loop, if all of them
/// continued.
pub open spec fn do_states(f: Function, g: Function, cc: nat, s: Seq<ArrView>, k: nat) -> Option<
    Seq<ArrView>,
>
    decreases k,
{
    if k == 0 {
        Some(s)
    } else {
        match do_states(f, g, cc, s, (k - 1) as nat) {
            None => None,
            Some(t) => match do_step(f, g, cc, t) {
                DoStep::Next(u) => Some(u),
                _ => None,
            },
        }
    }
}

/// The number of values the do-loop duplicates before each condition
/// call.
pub open spec fn copy_count_of(g: Signature) -> nat {
    if g.args >= g.outputs - 1 {
        (g.args - (g.outputs - 1)) as nat
    } else {
        0
    }
}

/// Pops a body `f` and a condition `g`, then loops: duplicate the top
/// `copy_count` values, call `g`, pop its first output as the continue
/// flag, and call `f` while it is true.
///
/// The condition must return at least one value, and the composition of
/// the two signatures (without the flag) must leave the stack height
/// unchanged.
#[verifier::rlimit(100)]
pub fn do_(env: &mut Uiua) -> (r: UiuaResult)
    requires
        old(env).wf(),
    ensures
        final(env).wf(),
        final(env).fill == old(env).fill,
        ({
            let fns = old(env).function_stack@;
            let s = old(env).stack_view();
            &&& (fns.len() == 0 ==> r == Err::<(), UiuaError>(
                UiuaError::StackUnderflow(StackRole::Function),
            ) && final(env).stack_view() == s && final(env).function_stack@ == fns)
            &&& (fns.len() == 1 ==> r == Err::<(), UiuaError>(
                UiuaError::StackUnderflow(StackRole::Function),
            ) && final(env).stack_view() == s && final(env).function_stack@
                == fns.drop_last())
            &&& (fns.len() >= 2 ==> final(env).function_stack@ == fns.drop_last().drop_last()
                && ({
                let f = fns.last();
                let g = fns[fns.len() - 2];
                let gs = g.sig_spec();
                let cc = copy_count_of(gs);
                let g_sub = Signature { args: gs.args, outputs: (gs.outputs - 1 + cc) as usize };
                let comp = crate::sig::compose_spec(f.sig_spec(), g_sub);
                &&& (gs.outputs < 1 ==> r == Err::<(), UiuaError>(UiuaError::SignatureError(gs))
                    && final(env).stack_view() == s)
                &&& (gs.outputs >= 1 && comp.args != comp.outputs ==> r == Err::<(), UiuaError>(
                    UiuaError::SignatureError(comp),
                ) && final(env).stack_view() == s)
                &&& (gs.outputs >= 1 && comp.args == comp.outputs ==> match r {
                    Ok(()) => exists|k: nat|
                        #[trigger] do_states(f, g, cc, s, k) is Some && do_step(
                            f,
                            g,
                            cc,
                            do_states(f, g, cc, s, k)->0,
                        ) == DoStep::Stop(final(env).stack_view()),
                    Err(e) => (exists|k: nat|
                        #[trigger] do_states(f, g, cc, s, k) is Some && do_step(
                            f,
                            g,
                            cc,
                            do_states(f, g, cc, s, k)->0,
                        ) == DoStep::Fail(e)) || (e == UiuaError::DomainError && do_states(
                        f,
                        g,
                        cc,
                        s,
                        fix_step_bound(),
                    ) is Some),
                })
            }))
        }),
{
    let f = match env.pop_function() {
        Ok(f) => f,
        Err(e) => {
            return Err(e);
        },
    };
    let g = match env.pop_function() {
        Ok(g) => g,
        Err(e) => {
            return Err(e);
        },
    };
    let f_sig = f.signature();
    let g_sig = g.signature();
    if g_sig.outputs < 1 {
        return Err(UiuaError::SignatureError(g_sig));
    }
    let cc = g_sig.args.saturating_sub(g_sig.outputs - 1);
    proof {
        crate::env::lemma_sig_bounds(f);
        crate::env::lemma_sig_bounds(g);
        assert(cc == copy_count_of(g_sig));
    }
    let g_sub = Signature::new(g_sig.args, g_sig.outputs + cc - 1);
    let comp = f_sig.compose(g_sub);
    if comp.args != comp.outputs {
        return Err(UiuaError::SignatureError(comp));
    }
    let ghost s_init = old(env).stack_view();
    let ghost mut k: nat = 0;
    let mut fuel: u64 = u64::MAX;
    loop
        invariant
            env.wf(),
            f.wf(),
            g.wf(),
            env.fill == old(env).fill,
            old(env).function_stack@.len() >= 2,
            f == old(env).function_stack@.last(),
            g == old(env).function_stack@[old(env).function_stack@.len() - 2],
            env.function_stack@ == old(env).function_stack@.drop_last().drop_last(),
            s_init == old(env).stack_view(),
            g.sig_spec().outputs >= 1,
            cc == copy_count_of(g.sig_spec()),
            ({
                let g_sub = Signature {
                    args: g.sig_spec().args,
                    outputs: (g.sig_spec().outputs - 1 + cc) as usize,
                };
                let comp = crate::sig::compose_spec(f.sig_spec(), g_sub);
                comp.args == comp.outputs
            }),
            do_states(f, g, cc as nat, s_init, k) == Some(env.stack_view()),
            k + fuel == fix_step_bound(),
        decreases fuel,
    {
        if fuel == 0 {
            return Err(UiuaError::DomainError);
        }
        fuel = fuel - 1;
        let ghost cur = env.stack_view();
        if env.stack.len() < cc {
            proof {
                crate::model::lemma_arr_views(env.stack@);
                assert(do_step(f, g, cc as nat, cur) == DoStep::Fail(
                    UiuaError::StackUnderflow(StackRole::Argument),
                ));
            }
            return Err(UiuaError::StackUnderflow(StackRole::Argument));
        }
        proof {
            crate::model::lemma_arr_views(env.stack@);
        }
        let mut t: usize = 0;
        while t < cc
            invariant
                env.wf(),
                t <= cc,
                cc <= cur.len(),
                env.fill == old(env).fill,
                env.function_stack@ == old(env).function_stack@.drop_last().drop_last(),
                env.stack_view() == cur + cur.subrange(
                    cur.len() - cc,
                    cur.len() - cc + t,
                ),
                env.stack@.len() == cur.len() + t,
            decreases cc - t,
        {
            let idx = env.stack.len() - cc;
            proof {
                crate::model::lemma_arr_views(env.stack@);
            }
            let d = env.stack[idx].duplicate();
            proof {
                crate::model::lemma_arr_views(env.stack@);
                assert(arr_view(d) == env.stack_view()[idx as int]);
                assert(env.stack_view()[idx as int] == cur[cur.len() - cc + t]) by {
                    if idx < cur.len() {
                    } else {
                        assert(env.stack_view()[idx as int] == cur.subrange(
                            cur.len() - cc,
                            cur.len() - cc + t,
                        )[idx - cur.len()]);
                    }
                }
            }
            let ghost pre = env.stack_view();
            env.push(d);
            proof {
                assert(env.stack_view() =~= cur + cur.subrange(
                    cur.len() - cc,
                    cur.len() - cc + t + 1,
                ));
            }
            t += 1;
        }
        proof {
            assert(env.stack_view() =~= cur + cur.subrange(cur.len() - cc, cur.len() as int));
        }
        let ghost s1 = env.stack_view();
        match env.call(&g) {
            Ok(()) => {},
            Err(e) => {
                proof {
                    assert(do_step(f, g, cc as nat, cur) == DoStep::Fail(e));
                }
                return Err(e);
            },
        }
        let ghost tv = env.stack_view();
        let cond_arr = match env.pop(StackRole::DoCondition) {
            Ok(v) => v,
            Err(e) => {
                proof {
                    assert(do_step(f, g, cc as nat, cur) == DoStep::Fail(
                        UiuaError::StackUnderflow(StackRole::DoCondition),
                    ));
                }
                return Err(e);
            },
        };
        let is_bool_scalar = match (&cond_arr.data, cond_arr.shape.len()) {
            (Data::Num(_), 0) => true,
            _ => false,
        };
        let cond_val: i64 = if is_bool_scalar {
            match &cond_arr.data {
                Data::Num(b) => {
                    proof {
                        assert(arr_view(cond_arr).cells.len() == crate::model::count(
                            arr_view(cond_arr).shape,
                        ));
                        assert(arr_view(cond_arr).cells[0] == crate::model::CellView::N(b@[0]));
                    }
                    b[0]
                },
                _ => {
                    proof {
                        assert(false);
                    }
                    0
                },
            }
        } else {
            0
        };
        if !is_bool_scalar || (cond_val != 0 && cond_val != 1) {
            proof {
                assert(!is_bool_value(tv.last()));
                assert(do_step(f, g, cc as nat, cur) == DoStep::Fail(UiuaError::DomainError));
            }
            return Err(UiuaError::DomainError);
        }
        if cond_val == 0 {
            proof {
                assert(is_bool_value(tv.last()) && !bool_value(tv.last()));
                assert(do_step(f, g, cc as nat, cur) == DoStep::Stop(env.stack_view()));
            }
            return Ok(());
        }
        proof {
            assert(is_bool_value(tv.last()) && bool_value(tv.last()));
        }
        let ghost before_f = env.stack_view();
        match env.call(&f) {
            Ok(()) => {},
            Err(e) => {
                proof {
                    assert(do_step(f, g, cc as nat, cur) == DoStep::Fail(e));
                }
                return Err(e);
            },
        }
        proof {
            assert(do_step(f, g, cc as nat, cur) == DoStep::Next(env.stack_view()));
            assert(do_states(f, g, cc as nat, s_init, (k + 1) as nat) == Some(env.stack_view()));
            k = k + 1nat;
        }
    }
}

/// The partition of row indices `0 .. k` by markers: each group is a
/// maximal run of adjacent rows sharing one positive marker value; rows
/// with a marker of zero or less belong to no group.
pub open spec fn partition_idx(ms: Seq<i64>, k: nat) -> Seq<Seq<int>>
    decreases k,
{
    if k == 0 {
        Seq::empty()
    } else {
        let g = partition_idx(ms, (k - 1) as nat);
        let m = ms[k - 1];
        if m > 0 {
            if k >= 2 && ms[k - 2] == m {
                g.update(g.len() - 1, g.last().push(k - 1))
            } else {
                g.push(seq![(k - 1) as int])
            }
        } else {
            g
        }
    }
}

/// The rows of a model at the given indices.
pub open spec fn rows_of(v: ArrView, idxs: Seq<int>) -> Seq<ArrView> {
    Seq::new(idxs.len(), |j: int| v.row(idxs[j]))
}

/// Every group the partition builds holds at least one row, and every
/// index in it lies below `k`; a final positive marker guarantees a
/// group.
pub proof fn lemma_partition_idx_bounds(ms: Seq<i64>, k: nat)
    ensures
        (k >= 1 && ms[k - 1] > 0) ==> partition_idx(ms, k).len() > 0,
        forall|a: int|
            0 <= a < partition_idx(ms, k).len() ==> (#[trigger] partition_idx(ms, k)[a]).len()
                > 0,
        forall|a: int, b: int|
            0 <= a < partition_idx(ms, k).len() && 0 <= b < partition_idx(ms, k)[a].len()
                ==> 0 <= #[trigger] partition_idx(ms, k)[a][b] < k,
    decreases k,
{
    if k > 0 {
        lemma_partition_idx_bounds(ms, (k - 1) as nat);
        let pre = partition_idx(ms, (k - 1) as nat);
        let post = partition_idx(ms, k);
        let m = ms[k - 1];
        if m > 0 {
            if k >= 2 && ms[k - 2] == m {
                assert(pre.len() > 0);
                assert(post == pre.update(pre.len() - 1, pre.last().push((k - 1) as int)));
                assert forall|a: int| 0 <= a < post.len() implies (#[trigger] post[a]).len()
                    > 0 by {
                    if a != pre.len() - 1 {
                        assert(post[a] == pre[a]);
                    }
                }
                assert forall|a: int, b: int|
                    0 <= a < post.len() && 0 <= b < post[a].len() implies 0 <= #[trigger] post[a][b]
                    < k by {
                    if a == pre.len() - 1 {
                        if b < pre.last().len() {
                            assert(post[a][b] == pre[a][b]);
                        }
                    } else {
                        assert(post[a] == pre[a]);
                    }
                }
            } else {
                assert(post == pre.push(seq![(k - 1) as int]));
                assert forall|a: int, b: int|
                    0 <= a < post.len() && 0 <= b < post[a].len() implies 0 <= #[trigger] post[a][b]
                    < k by {
                    if a < pre.len() {
                        assert(post[a] == pre[a]);
                    }
                }
            }
        }
    }
}

impl Array {
    /// Splits the array's rows into groups by markers: each group is a
    /// maximal run of adjacent rows sharing one positive marker value;
    /// rows with a marker of zero or less are dropped. The markers must
    /// be as many as the rows.
    pub fn partition_groups(self, markers: &Vec<i64>) -> (r: Result<Vec<Array>, UiuaError>)
        requires
            self.wf(),
        ensures
            match r {
                Ok(gs) => {
                    &&& markers@.len() == self@.row_count()
                    &&& gs@.len() == partition_idx(markers@, markers@.len() as nat).len()
                    &&& forall|gi: int|
                        0 <= gi < gs@.len() ==> arr_view(#[trigger] gs@[gi]) == stacked(
                            rows_of(self@, partition_idx(markers@, markers@.len() as nat)[gi]),
                            self@.row_shape(),
                            self@.kind,
                        ) && gs@[gi].wf()
                },
                Err(e) => {
                    &&& e == UiuaError::ShapeMismatch
                    &&& markers@.len() != self@.row_count()
                },
            },
    {
        let ghost v0 = self@;
        let ghost ms = markers@;
        let n = markers.len();
        let rc = self.row_count();
        if n != rc {
            return Err(UiuaError::ShapeMismatch);
        }
        let rows = self.into_rows();
        // reverse so rows can be consumed front to back
        let ghost rows0 = rows@;
        let mut rows = rows;
        let mut rev: Vec<Array> = Vec::new();
        while rows.len() > 0
            invariant
                rows@.len() + rev@.len() == n,
                rows0.len() == n,
                rows@ == rows0.subrange(0, rows@.len() as int),
                forall|j: int| 0 <= j < rev@.len() ==> rev@[j] == rows0[n - 1 - j],
            decreases rows.len(),
        {
            let r = rows.pop().unwrap();
            proof {
                assert(rows0.subrange(0, rows0.len() as int) =~= rows0);
            }
            rev.push(r);
            proof {
                assert(rows@ =~= rows0.subrange(0, rows@.len() as int));
            }
        }
        let mut groups: Vec<Vec<Array>> = Vec::new();
        let mut last_marker: i64 = 0;
        let mut i: usize = 0;
        while i < n
            invariant
                i <= n,
                n == ms.len(),
                markers@ == ms,
                n == v0.row_count(),
                view_wf(v0),
                rows0.len() == n,
                rev@.len() == n - i,
                forall|j: int| 0 <= j < rev@.len() ==> rev@[j] == rows0[n - 1 - j],
                forall|j: int|
                    0 <= j < n ==> arr_view(#[trigger] rows0[j]) == v0.row(j) && rows0[j].wf(),
                i >= 1 ==> last_marker == ms[i - 1],
                groups@.len() == partition_idx(ms, i as nat).len(),
                forall|a: int|
                    0 <= a < groups@.len() ==> (#[trigger] groups@[a])@.len() == partition_idx(
                        ms,
                        i as nat,
                    )[a].len(),
                forall|a: int, b: int|
                    0 <= a < groups@.len() && 0 <= b < groups@[a]@.len()
                        ==> #[trigger] groups@[a]@[b] == rows0[partition_idx(ms, i as nat)[a][b]],
            decreases n - i,
        {
            let m = markers[i];
            let row = rev.pop().unwrap();
            proof {
                assert(row == rows0[i as int]);
                lemma_partition_idx_bounds(ms, i as nat);
                lemma_partition_idx_bounds(ms, (i + 1) as nat);
            }
            if m > 0 {
                if i >= 1 && m == last_marker && groups.len() > 0 {
                    let gi = groups.len() - 1;
                    let mut last = groups.pop().unwrap();
                    last.push(row);
                    groups.push(last);
                    proof {
                        let pre = partition_idx(ms, i as nat);
                        let post = partition_idx(ms, (i + 1) as nat);
                        assert(post == pre.update(pre.len() - 1, pre.last().push(i as int)));
                    }
                } else {
                    proof {
                        // a positive marker equal to the previous one means the
                        // previous row opened or joined a group
                        if i >= 1 && m == last_marker {
                            assert(partition_idx(ms, i as nat).len() > 0);
                        }
                    }
                    let mut fresh: Vec<Array> = Vec::new();
                    fresh.push(row);
                    groups.push(fresh);
                    proof {
                        let pre = partition_idx(ms, i as nat);
                        let post = partition_idx(ms, (i + 1) as nat);
                        assert(post == pre.push(seq![i as int]));
                    }
                }
            } else {
                proof {
                    assert(partition_idx(ms, (i + 1) as nat) == partition_idx(ms, i as nat));
                }
            }
            last_marker = m;
            i += 1;
        }
        // assemble each group into one array
        let ghost gidx = partition_idx(ms, n as nat);
        proof {
            lemma_partition_idx_bounds(ms, n as nat);
        }
        let ghost groups0 = groups@;
        let mut groups = groups;
        let mut grev: Vec<Vec<Array>> = Vec::new();
        while groups.len() > 0
            invariant
                groups@.len() + grev@.len() == groups0.len(),
                groups@ == groups0.subrange(0, groups@.len() as int),
                forall|j: int| 0 <= j < grev@.len() ==> grev@[j] == groups0[groups0.len() - 1 - j],
            decreases groups.len(),
        {
            let g = groups.pop().unwrap();
            proof {
                assert(groups0.subrange(0, groups0.len() as int) =~= groups0);
            }
            grev.push(g);
            proof {
                assert(groups@ =~= groups0.subrange(0, groups@.len() as int));
            }
        }
        let mut out: Vec<Array> = Vec::new();
        let ghost ng = groups0.len();
        while grev.len() > 0
            invariant
                out@.len() + grev@.len() == ng,
                ng == gidx.len(),
                view_wf(v0),
                n == v0.row_count(),
                rows0.len() == n,
                forall|j: int| 0 <= j < grev@.len() ==> grev@[j] == groups0[ng - 1 - j],
                forall|j: int|
                    0 <= j < n ==> arr_view(#[trigger] rows0[j]) == v0.row(j) && rows0[j].wf(),
                forall|a: int|
                    0 <= a < ng ==> (#[trigger] groups0[a])@.len() == gidx[a].len(),
                forall|a: int, b: int|
                    0 <= a < ng && 0 <= b < groups0[a]@.len() ==> #[trigger] groups0[a]@[b]
                        == rows0[gidx[a][b]],
                forall|a: int| 0 <= a < ng ==> (#[trigger] gidx[a]).len() > 0,
                forall|a: int, b: int|
                    0 <= a < ng && 0 <= b < gidx[a].len() ==> 0 <= #[trigger] gidx[a][b] < n,
                forall|gi: int|
                    0 <= gi < out@.len() ==> arr_view(#[trigger] out@[gi]) == stacked(
                        rows_of(v0, gidx[gi]),
                        v0.row_shape(),
                        v0.kind,
                    ) && out@[gi].wf(),
            decreases grev.len(),
        {
            let g = grev.pop().unwrap();
            let ghost a = out@.len() as int;
            proof {
                assert(g == groups0[a]);
                lemma_arr_views(g@);
                assert forall|b: int| 0 <= b < g@.len() implies (#[trigger] g@[b]).wf()
                    && arr_view(g@[b]) == v0.row(gidx[a][b]) by {
                    assert(g@[b] == rows0[gidx[a][b]]);
                }
                assert forall|b: int| 0 <= b < g@.len() implies (#[trigger] arr_view(g@[b])).kind
                    == arr_view(g@[0]).kind && arr_view(g@[b]).shape == arr_view(g@[0]).shape by {
                    if v0.rank() != 0 {
                        lemma_row_wf(v0, gidx[a][b]);
                        assert(arr_view(g@[b]) == v0.row(gidx[a][b]));
                        assert(arr_view(g@[0]) == v0.row(gidx[a][0]));
                    }
                }
            }
            let arr = match Array::from_row_values(g) {
                Ok(arr) => arr,
                Err(_) => {
                    proof {
                        assert(false);
                    }
                    return Err(UiuaError::ShapeMismatch);
                },
            };
            proof {
                assert(arr_views(groups0[a]@) =~= rows_of(v0, gidx[a])) by {
                    lemma_arr_views(groups0[a]@);
                }
                assert(arr_view(arr).shape =~= seq![gidx[a].len() as usize].add(v0.row_shape()))
                    by {
                    assert(arr_view(groups0[a]@[0]) == v0.row(gidx[a][0]));
                    if v0.rank() == 0 {
                        assert(v0.row(gidx[a][0]).shape == v0.row_shape());
                    }
                }
                assert(arr_view(arr) =~= stacked(rows_of(v0, gidx[a]), v0.row_shape(), v0.kind));
            }
            out.push(arr);
        }
        Ok(out)
    }
}

/// Whether shape `a` begins with shape `b`.
pub open spec fn starts_with(a: Seq<usize>, b: Seq<usize>) -> bool {
    b.len() <= a.len() && forall|i: int| 0 <= i < b.len() ==> a[i] == b[i]
}

/// The numbers held by a sequence of number cells.
pub open spec fn nums_of(cells: Seq<CellView>) -> Seq<i64> {
    Seq::new(cells.len(), |i: int| cells[i]->N_0)
}

/// The largest index in a list, or -1 when the list is empty.
pub open spec fn max_idx(s: Seq<i64>) -> i64
    decreases s.len(),
{
    if s.len() == 0 {
        -1i64
    } else {
        let m = max_idx(s.drop_last());
        if s.last() > m {
            s.last()
        } else {
            m
        }
    }
}

/// How many groups an index list makes: one per index from 0 to the
/// largest, or none when no index is non-negative.
pub open spec fn group_count(s: Seq<i64>) -> int {
    if max_idx(s) < 0 {
        0
    } else {
        max_idx(s) + 1
    }
}

/// The positions in `0 .. k` whose index is `g`, in order.
pub open spec fn sel_idx(s: Seq<i64>, g: int, k: nat) -> Seq<int>
    decreases k,
{
    if k == 0 {
        Seq::empty()
    } else {
        let pre = sel_idx(s, g, (k - 1) as nat);
        if s[k - 1] == g {
            pre.push((k - 1) as int)
        } else {
            pre
        }
    }
}

/// Every selected position lies below `k`.
pub proof fn lemma_sel_idx_bounds(s: Seq<i64>, g: int, k: nat)
    ensures
        forall|j: int| 0 <= j < sel_idx(s, g, k).len() ==> 0 <= #[trigger] sel_idx(s, g, k)[j] < k,
    decreases k,
{
    if k > 0 {
        lemma_sel_idx_bounds(s, g, (k - 1) as nat);
        let pre = sel_idx(s, g, (k - 1) as nat);
        let post = sel_idx(s, g, k);
        assert forall|j: int| 0 <= j < post.len() implies 0 <= #[trigger] post[j] < k by {
            if j < pre.len() {
                assert(post[j] == pre[j]);
            }
        }
    }
}

/// No entry exceeds the largest index.
pub proof fn lemma_max_idx(s: Seq<i64>)
    ensures
        forall|j: int| 0 <= j < s.len() ==> #[trigger] s[j] <= max_idx(s),
    decreases s.len(),
{
    if s.len() > 0 {
        lemma_max_idx(s.drop_last());
        assert forall|j: int| 0 <= j < s.len() implies #[trigger] s[j] <= max_idx(s) by {
            if j < s.len() - 1 {
                assert(s.drop_last()[j] == s[j]);
            }
        }
    }
}

/// The depth-`d` slices of a model at the given positions.
pub open spec fn slices_of(v: ArrView, d: int, sel: Seq<int>) -> Seq<ArrView> {
    Seq::new(sel.len(), |j: int| v.slice(d, sel[j]))
}

/// The model of the array an empty group collapses to.
pub open spec fn empty_group_view() -> ArrView {
    ArrView { shape: seq![0usize], kind: ArrayType::Num, cells: Seq::<CellView>::empty() }
}

/// What group `g` of a grouping looks like.
pub open spec fn group_view_ok(v: ArrView, d: int, idxs: Seq<i64>, g: int, out: ArrView) -> bool {
    let sel = sel_idx(idxs, g, idxs.len() as nat);
    if sel.len() == 0 {
        out == empty_group_view()
    } else {
        out == stacked(slices_of(v, d, sel), v.slice_shape(d), v.kind)
    }
}

impl Array {
    /// Distributes the array's depth-`d` slices into groups by an index
    /// array whose shape must be a prefix of the array's shape, where `d`
    /// is the index array's rank: each non-negative index assigns the
    /// corresponding slice to that group, keeping the original order;
    /// negative indices are dropped. The group count is one more than the
    /// largest index, or zero when no index is non-negative.
    pub fn group_groups(self, indices: &Array) -> (r: Result<Vec<Array>, UiuaError>)
        requires
            self.wf(),
            indices.wf(),
            indices@.kind is Num,
        ensures
            match r {
                Ok(gs) => {
                    &&& starts_with(self@.shape, indices@.shape)
                    &&& group_count(nums_of(indices@.cells)) <= usize::MAX
                    &&& gs@.len() == group_count(nums_of(indices@.cells))
                    &&& forall|g: int|
                        0 <= g < gs@.len() ==> group_view_ok(
                            self@,
                            indices@.rank() as int,
                            nums_of(indices@.cells),
                            g,
                            arr_view(#[trigger] gs@[g]),
                        ) && gs@[g].wf()
                },
                Err(e) => (e == UiuaError::ShapeMismatch && !starts_with(
                    self@.shape,
                    indices@.shape,
                )) || (e == UiuaError::DomainError && starts_with(self@.shape, indices@.shape)
                    && group_count(nums_of(indices@.cells)) > usize::MAX),
            },
    {
        let ghost v0 = self@;
        let d = indices.rank();
        let prefix_ok = d <= self.rank() && self.shape_prefix_matches(indices);
        if !prefix_ok {
            proof {
                if d <= self@.rank() {
                    assert(!starts_with(self@.shape, indices@.shape));
                }
            }
            return Err(UiuaError::ShapeMismatch);
        }
        let b = match &indices.data {
            Data::Num(b) => b,
            _ => {
                proof {
                    assert(false);
                }
                return Err(UiuaError::ShapeMismatch);
            },
        };
        let ghost idxs = nums_of(indices@.cells);
        proof {
            assert(idxs.len() == b@.len());
            assert forall|i: int| 0 <= i < idxs.len() implies idxs[i] == b@[i] by {
                assert(indices@.cells[i] == CellView::N(b@[i]));
            }
            assert(idxs =~= b@);
        }
        let n = b.len();
        // largest index
        let mut mx: i64 = -1;
        let mut i: usize = 0;
        while i < n
            invariant
                i <= n,
                n == b@.len(),
                indices.data == Data::Num(*b),
                mx == max_idx(b@.subrange(0, i as int)),
            decreases n - i,
        {
            proof {
                assert(b@.subrange(0, i + 1).drop_last() =~= b@.subrange(0, i as int));
                assert(b@.subrange(0, i + 1).last() == b@[i as int]);
            }
            if b[i] > mx {
                mx = b[i];
            }
            i += 1;
        }
        proof {
            assert(b@.subrange(0, n as int) =~= b@);
        }
        let ng: usize = if mx < 0 {
            0
        } else {
            if mx as u64 > (usize::MAX as u64) - 1 {
                return Err(UiuaError::DomainError);
            }
            ((mx as u64) + 1) as usize
        };
        proof {
            lemma_max_idx(idxs);
        }
        // cut the array into slices
        let sc = n;
        let total = self.element_count();
        proof {
            lemma_count_split(v0.shape, d as int);
            assert(v0.shape.take(d as int) =~= indices@.shape);
            assert(count(indices@.shape) == sc);
        }
        let sl = if sc == 0 {
            0
        } else {
            let q = total / sc;
            proof {
                assert((sc * v0.slice_len(d as int)) as int / (sc as int) == v0.slice_len(
                    d as int,
                )) by (nonlinear_arith)
                    requires sc > 0,
                ;
            }
            q
        };
        proof {
            if sc == 0 {
                assert(total == 0) by (nonlinear_arith)
                    requires total == sc * v0.slice_len(d as int), sc == 0,
                ;
            }
            assert(total == sc * sl) by (nonlinear_arith)
                requires
                    total == sc * v0.slice_len(d as int),
                    sc > 0 ==> sl == v0.slice_len(d as int),
                    sc == 0 ==> total == 0 && sl == 0,
            ;
            crate::model::lemma_cells_wf(v0.cells);
        }
        let mut sshape: Vec<usize> = Vec::new();
        let mut si: usize = d;
        while si < self.shape.len()
            invariant
                d <= si <= self.shape@.len(),
                sshape@.len() == si - d,
                forall|j: int| 0 <= j < si - d ==> sshape@[j] == self.shape@[d + j],
            decreases self.shape.len() - si,
        {
            sshape.push(self.shape[si]);
            si += 1;
        }
        proof {
            assert(sshape@ =~= v0.slice_shape(d as int));
            assert(sc > 0 ==> count(sshape@) == sl);
            if sc == 0 {
                assert(idxs.len() == 0);
                assert(group_count(idxs) == 0 || group_count(idxs) == max_idx(idxs) + 1);
            }
        }
        if sc == 0 && ng > 0 {
            proof {
                assert(false);
            }
            return Err(UiuaError::DomainError);
        }
        if sc == 0 {
            let out: Vec<Array> = Vec::new();
            return Ok(out);
        }
        proof {
            assert(count(sshape@) == sl);
        }
        let ghost selfdata = self.data;
        let pieces = crate::array::split_pieces(self.data, sl, sc, &sshape);
        proof {
            assert forall|i: int| 0 <= i < sc implies arr_view(#[trigger] pieces@[i]) == v0.slice(
                d as int,
                i,
            ) by {
                assert(arr_view(pieces@[i]) == (ArrView {
                    shape: sshape@,
                    kind: crate::model::data_kind(selfdata),
                    cells: crate::model::data_cells(selfdata).subrange(
                        i * (sl as int),
                        i * (sl as int) + sl,
                    ),
                }));
                assert((i + 1) * (sl as int) == i * (sl as int) + sl) by (nonlinear_arith);
            }
        }
        // distribute slices into groups
        let mut groups: Vec<Vec<Array>> = Vec::new();
        let mut gi: usize = 0;
        while gi < ng
            invariant
                gi <= ng,
                groups@.len() == gi,
                forall|g: int| 0 <= g < gi ==> (#[trigger] groups@[g])@.len() == 0,
            decreases ng - gi,
        {
            groups.push(Vec::new());
            gi += 1;
        }
        let ghost pieces0 = pieces@;
        let mut pieces = pieces;
        let mut prev: Vec<Array> = Vec::new();
        while pieces.len() > 0
            invariant
                pieces@.len() + prev@.len() == sc,
                pieces0.len() == sc,
                pieces@ == pieces0.subrange(0, pieces@.len() as int),
                forall|j: int| 0 <= j < prev@.len() ==> prev@[j] == pieces0[sc - 1 - j],
            decreases pieces.len(),
        {
            let r = pieces.pop().unwrap();
            proof {
                assert(pieces0.subrange(0, pieces0.len() as int) =~= pieces0);
            }
            prev.push(r);
            proof {
                assert(pieces@ =~= pieces0.subrange(0, pieces@.len() as int));
            }
        }
        let mut i: usize = 0;
        while i < sc
            invariant
                i <= sc,
                sc == n,
                n == b@.len(),
                idxs == b@,
                indices.data == Data::Num(*b),
                ng == group_count(idxs) || (mx < 0 && ng == 0),
                ng == groups@.len(),
                mx == max_idx(idxs),
                forall|j: int| 0 <= j < idxs.len() ==> idxs[j] <= mx,
                pieces0.len() == sc,
                prev@.len() == sc - i,
                forall|j: int| 0 <= j < prev@.len() ==> prev@[j] == pieces0[sc - 1 - j],
                forall|j: int|
                    0 <= j < sc ==> arr_view(#[trigger] pieces0[j]) == v0.slice(d as int, j)
                        && pieces0[j].wf(),
                forall|g: int|
                    0 <= g < ng ==> (#[trigger] groups@[g])@.len() == sel_idx(
                        idxs,
                        g,
                        i as nat,
                    ).len(),
                forall|g: int, j: int|
                    0 <= g < ng && 0 <= j < groups@[g]@.len() ==> #[trigger] groups@[g]@[j]
                        == pieces0[sel_idx(idxs, g, i as nat)[j]],
            decreases sc - i,
        {
            let idx = b[i];
            let piece = prev.pop().unwrap();
            proof {
                assert(piece == pieces0[i as int]);
                lemma_sel_idx_bounds(idxs, idx as int, i as nat);
            }
            if idx >= 0 {
                let g = idx as usize;
                let mut tmp = groups.remove(g);
                tmp.push(piece);
                groups.insert(g, tmp);
                proof {
                    assert forall|g2: int| 0 <= g2 < ng implies (#[trigger] groups@[g2])@.len()
                        == sel_idx(idxs, g2, (i + 1) as nat).len() by {
                        if g2 != g {
                            assert(sel_idx(idxs, g2, (i + 1) as nat) == sel_idx(
                                idxs,
                                g2,
                                i as nat,
                            ));
                        }
                    }
                }
            } else {
                proof {
                    assert forall|g2: int| 0 <= g2 < ng implies sel_idx(idxs, g2, (i + 1) as nat)
                        == sel_idx(idxs, g2, i as nat) by {}
                }
            }
            i += 1;
        }
        // assemble each group
        let ghost groups0 = groups@;
        let mut groups = groups;
        let mut grev: Vec<Vec<Array>> = Vec::new();
        while groups.len() > 0
            invariant
                groups@.len() + grev@.len() == groups0.len(),
                groups@ == groups0.subrange(0, groups@.len() as int),
                forall|j: int| 0 <= j < grev@.len() ==> grev@[j] == groups0[groups0.len() - 1 - j],
            decreases groups.len(),
        {
            let g = groups.pop().unwrap();
            proof {
                assert(groups0.subrange(0, groups0.len() as int) =~= groups0);
            }
            grev.push(g);
            proof {
                assert(groups@ =~= groups0.subrange(0, groups@.len() as int));
            }
        }
        let mut out: Vec<Array> = Vec::new();
        while grev.len() > 0
            invariant
                out@.len() + grev@.len() == groups0.len(),
                groups0.len() == ng,
                ng == group_count(idxs) || (mx < 0 && ng == 0),
                view_wf(v0),
                d <= v0.rank(),
                idxs.len() == sc,
                pieces0.len() == sc,
                forall|j: int| 0 <= j < grev@.len() ==> grev@[j] == groups0[ng - 1 - j],
                forall|j: int|
                    0 <= j < sc ==> arr_view(#[trigger] pieces0[j]) == v0.slice(d as int, j)
                        && pieces0[j].wf(),
                forall|g: int|
                    0 <= g < ng ==> (#[trigger] groups0[g])@.len() == sel_idx(
                        idxs,
                        g,
                        sc as nat,
                    ).len(),
                forall|g: int, j: int|
                    0 <= g < ng && 0 <= j < groups0[g]@.len() ==> #[trigger] groups0[g]@[j]
                        == pieces0[sel_idx(idxs, g, sc as nat)[j]],
                forall|g: int|
                    0 <= g < out@.len() ==> group_view_ok(
                        v0,
                        d as int,
                        idxs,
                        g,
                        arr_view(#[trigger] out@[g]),
                    ) && out@[g].wf(),
            decreases grev.len(),
        {
            let g = grev.pop().unwrap();
            let ghost a = out@.len() as int;
            proof {
                assert(g == groups0[a]);
                lemma_sel_idx_bounds(idxs, a, sc as nat);
                lemma_arr_views(g@);
                assert forall|b2: int| 0 <= b2 < g@.len() implies (#[trigger] g@[b2]).wf()
                    && arr_view(g@[b2]) == v0.slice(d as int, sel_idx(idxs, a, sc as nat)[b2]) by {
                    assert(g@[b2] == pieces0[sel_idx(idxs, a, sc as nat)[b2]]);
                }
                assert forall|b2: int| 0 <= b2 < g@.len() implies (#[trigger] arr_view(
                    g@[b2],
                )).kind == arr_view(g@[0]).kind && arr_view(g@[b2]).shape == arr_view(
                    g@[0],
                ).shape by {}
            }
            let arr = match Array::from_row_values(g) {
                Ok(arr) => arr,
                Err(_) => {
                    proof {
                        assert(false);
                    }
                    return Err(UiuaError::ShapeMismatch);
                },
            };
            proof {
                let sel = sel_idx(idxs, a, sc as nat);
                if g@.len() == 0 {
                    assert(arr_view(arr) =~= empty_group_view());
                } else {
                    assert(arr_views(groups0[a]@) =~= slices_of(v0, d as int, sel)) by {
                        lemma_arr_views(groups0[a]@);
                    }
                    assert(arr_view(arr).shape =~= seq![sel.len() as usize].add(
                        v0.slice_shape(d as int),
                    )) by {
                        assert(arr_view(groups0[a]@[0]) == v0.slice(d as int, sel[0]));
                    }
                    assert(arr_view(arr) =~= stacked(
                        slices_of(v0, d as int, sel),
                        v0.slice_shape(d as int),
                        v0.kind,
                    ));
                }
            }
            out.push(arr);
        }
        proof {
            if ng == 0 && mx < 0 {
                assert(group_count(idxs) == 0);
            }
        }
        Ok(out)
    }
}

/// How a collapse gathers its groups: by markers (partition) or by an
/// index array (group).
#[derive(Clone, Copy, Debug, PartialEq, Eq, Structural)]
pub enum CollapseMode {
    /// Maximal runs of equal positive markers.
    ByMarkers,
    /// Assignment of depth slices by index.
    ByIndices,
}

/// The models of the partition groups of `values` by rank-1 markers.
pub open spec fn partition_views(values: ArrView, ms: Seq<i64>) -> Seq<ArrView> {
    Seq::new(
        partition_idx(ms, ms.len() as nat).len(),
        |gi: int|
            stacked(
                rows_of(values, partition_idx(ms, ms.len() as nat)[gi]),
                values.row_shape(),
                values.kind,
            ),
    )
}

/// The models of the index groups of `values` by an index array of rank
/// `d`.
pub open spec fn group_views(values: ArrView, d: int, idxs: Seq<i64>) -> Seq<ArrView> {
    Seq::new(
        group_count(idxs) as nat,
        |g: int|
            if sel_idx(idxs, g, idxs.len() as nat).len() == 0 {
                empty_group_view()
            } else {
                stacked(
                    slices_of(values, d, sel_idx(idxs, g, idxs.len() as nat)),
                    values.slice_shape(d),
                    values.kind,
                )
            },
    )
}

/// The groups a collapse works on, or the error of gathering them.
pub open spec fn groups_spec(mode: CollapseMode, values: ArrView, idx: ArrView) -> Result<
    Seq<ArrView>,
    UiuaError,
> {
    match mode {
        CollapseMode::ByMarkers => {
            if !(idx.kind is Num && idx.rank() == 1) {
                Err(UiuaError::DomainError)
            } else if idx.cells.len() != values.row_count() {
                Err(UiuaError::ShapeMismatch)
            } else {
                Ok(partition_views(values, nums_of(idx.cells)))
            }
        },
        CollapseMode::ByIndices => {
            if !(idx.kind is Num) {
                Err(UiuaError::DomainError)
            } else if !starts_with(values.shape, idx.shape) {
                Err(UiuaError::ShapeMismatch)
            } else if group_count(nums_of(idx.cells)) > usize::MAX {
                Err(UiuaError::DomainError)
            } else {
                Ok(group_views(values, idx.rank() as int, nums_of(idx.cells)))
            }
        },
    }
}

/// Whether rows can be stacked into one array: all must share one kind
/// and one shape.
pub open spec fn uniform_ok(rs: Seq<ArrView>) -> bool {
    forall|i: int|
        0 <= i < rs.len() ==> (#[trigger] rs[i]).kind == rs[0].kind && rs[i].shape == rs[0].shape
}

/// The array stacked from the given rows (an empty number list when
/// there are none).
pub open spec fn rows_to_view(rs: Seq<ArrView>) -> ArrView {
    if rs.len() == 0 {
        empty_group_view()
    } else {
        stacked(rs, rs[0].shape, rs[0].kind)
    }
}

/// One group of the map form: push the group (for a one-argument
/// function), call it, and pop its declared outputs into the parallel
/// row collections, first output first.
pub open spec fn map_step(
    fun: Function,
    args: nat,
    outs: nat,
    g: ArrView,
    s: Seq<ArrView>,
    rows: Seq<Seq<ArrView>>,
) -> Result<(Seq<ArrView>, Seq<Seq<ArrView>>), UiuaError> {
    let s1 = if args == 1 {
        s.push(g)
    } else {
        s
    };
    match call_spec(fun, s1) {
        Err(e) => Err(e),
        Ok(t) => {
            if t.len() < outs {
                Err(UiuaError::StackUnderflow(StackRole::FunctionResult))
            } else {
                Ok(
                    (
                        t.take(t.len() - outs),
                        Seq::new(outs, |o: int| rows[o].push(t[t.len() - 1 - o])),
                    ),
                )
            }
        },
    }
}

/// The map form over the first `k` groups.
pub open spec fn map_run(
    fun: Function,
    args: nat,
    outs: nat,
    groups: Seq<ArrView>,
    s: Seq<ArrView>,
    k: nat,
) -> Result<(Seq<ArrView>, Seq<Seq<ArrView>>), UiuaError>
    decreases k,
{
    if k == 0 {
        Ok((s, Seq::new(outs, |o: int| Seq::<ArrView>::empty())))
    } else {
        match map_run(fun, args, outs, groups, s, (k - 1) as nat) {
            Err(e) => Err(e),
            Ok((t, rows)) => map_step(fun, args, outs, groups[k - 1], t, rows),
        }
    }
}

/// One group of the reducing form: push the group, push the accumulator,
/// call the function, and pop the new accumulator.
pub open spec fn reduce_step(fun: Function, g: ArrView, s: Seq<ArrView>, acc: ArrView) -> Result<
    (Seq<ArrView>, ArrView),
    UiuaError,
> {
    match call_spec(fun, s.push(g).push(acc)) {
        Err(e) => Err(e),
        Ok(t) => {
            if t.len() < 1 {
                Err(UiuaError::StackUnderflow(StackRole::ReducedResult))
            } else {
                Ok((t.drop_last(), t.last()))
            }
        },
    }
}

/// The reducing form folded over the first `k` groups.
pub open spec fn reduce_run(
    fun: Function,
    groups: Seq<ArrView>,
    s: Seq<ArrView>,
    acc: ArrView,
    k: nat,
) -> Result<(Seq<ArrView>, ArrView), UiuaError>
    decreases k,
{
    if k == 0 {
        Ok((s, acc))
    } else {
        match reduce_run(fun, groups, s, acc, (k - 1) as nat) {
            Err(e) => Err(e),
            Ok((t, a)) => reduce_step(fun, groups[k - 1], t, a),
        }
    }
}

/// The stack after pushing the map form's `o` last results, so that the
/// first declared output ends on top.
pub open spec fn push_results(
    t: Seq<ArrView>,
    rows: Seq<Seq<ArrView>>,
    outs: nat,
    o: nat,
) -> Seq<ArrView>
    decreases o,
{
    if o == 0 {
        t
    } else {
        push_results(t, rows, outs, (o - 1) as nat).push(rows_to_view(rows[outs - o]))
    }
}

/// What a collapse (partition or group) does to the environment.
pub open spec fn collapse_ensures(
    mode: CollapseMode,
    fns: Seq<Function>,
    s: Seq<ArrView>,
    fill0: Option<ArrView>,
    r: UiuaResult,
    out: Seq<ArrView>,
) -> bool {
    if fns.len() == 0 {
        r == Err::<(), UiuaError>(UiuaError::StackUnderflow(StackRole::Function)) && out == s
    } else {
        let f = fns.last();
        let sig = f.sig_spec();
        if sig.args <= 1 {
            if s.len() < 2 {
                r == Err::<(), UiuaError>(UiuaError::StackUnderflow(StackRole::Argument))
            } else {
                let idx = s.last();
                let values = s[s.len() - 2];
                let rest = s.drop_last().drop_last();
                match groups_spec(mode, values, idx) {
                    Err(e) => r == Err::<(), UiuaError>(e),
                    Ok(groups) => match map_run(
                        f,
                        sig.args as nat,
                        sig.outputs as nat,
                        groups,
                        rest,
                        groups.len(),
                    ) {
                        Err(e) => r == Err::<(), UiuaError>(e),
                        Ok((t, rows)) => {
                            if forall|o: int|
                                0 <= o < sig.outputs ==> uniform_ok(#[trigger] rows[o]) {
                                r == Ok::<(), UiuaError>(()) && out == push_results(
                                    t,
                                    rows,
                                    sig.outputs as nat,
                                    sig.outputs as nat,
                                )
                            } else {
                                r == Err::<(), UiuaError>(UiuaError::ShapeMismatch)
                            }
                        },
                    },
                }
            }
        } else if sig.args == 2 && sig.outputs == 1 {
            if s.len() < 2 {
                r == Err::<(), UiuaError>(UiuaError::StackUnderflow(StackRole::Argument))
            } else {
                let idx = s.last();
                let values = s[s.len() - 2];
                let rest = s.drop_last().drop_last();
                match groups_spec(mode, values, idx) {
                    Err(e) => r == Err::<(), UiuaError>(e),
                    Ok(groups) => match fill0 {
                        Some(fv) => match reduce_run(f, groups, rest, fv, groups.len()) {
                            Err(e) => r == Err::<(), UiuaError>(e),
                            Ok((t, a)) => r == Ok::<(), UiuaError>(()) && out == t.push(a),
                        },
                        None => {
                            if groups.len() == 0 {
                                r == Err::<(), UiuaError>(UiuaError::DomainError)
                            } else {
                                match reduce_run(
                                    f,
                                    groups.skip(1),
                                    rest,
                                    groups[0],
                                    (groups.len() - 1) as nat,
                                ) {
                                    Err(e) => r == Err::<(), UiuaError>(e),
                                    Ok((t, a)) => r == Ok::<(), UiuaError>(()) && out == t.push(
                                        a,
                                    ),
                                }
                            }
                        },
                    },
                }
            }
        } else {
            r == Err::<(), UiuaError>(UiuaError::SignatureError(sig)) && out == s
        }
    }
}

/// Gathers the groups of a collapse from the popped values and index
/// arrays.
fn gather_groups(mode: CollapseMode, values: Array, idx: &Array) -> (r: Result<
    Vec<Array>,
    UiuaError,
>)
    requires
        values.wf(),
        idx.wf(),
    ensures
        match r {
            Ok(gs) => {
                &&& groups_spec(mode, arr_view(values), arr_view(*idx)) is Ok
                &&& gs@.len() == groups_spec(mode, arr_view(values), arr_view(*idx))->Ok_0.len()
                &&& forall|g: int|
                    0 <= g < gs@.len() ==> arr_view(#[trigger] gs@[g]) == groups_spec(
                        mode,
                        arr_view(values),
                        arr_view(*idx),
                    )->Ok_0[g] && gs@[g].wf()
            },
            Err(e) => {
                &&& groups_spec(mode, arr_view(values), arr_view(*idx)) is Err
                &&& e == groups_spec(mode, arr_view(values), arr_view(*idx))->Err_0
            },
        },
{
    let ghost vv = arr_view(values);
    let ghost iv = arr_view(*idx);
    match mode {
        CollapseMode::ByMarkers => {
            let kind_ok = match &idx.data {
                Data::Num(_) => true,
                _ => false,
            };
            if !kind_ok || idx.rank() != 1 {
                return Err(UiuaError::DomainError);
            }
            let b = match &idx.data {
                Data::Num(b) => b,
                _ => {
                    proof {
                        assert(false);
                    }
                    return Err(UiuaError::DomainError);
                },
            };
            proof {
                assert(iv.cells.len() == b@.len());
                assert forall|i: int| 0 <= i < b@.len() implies nums_of(iv.cells)[i] == b@[i] by {
                    assert(iv.cells[i] == CellView::N(b@[i]));
                }
                assert(nums_of(iv.cells) =~= b@);
            }
            match values.partition_groups(b) {
                Ok(gs) => {
                    proof {
                        let spec_gs = partition_views(vv, b@);
                        assert forall|g: int| 0 <= g < gs@.len() implies arr_view(
                            #[trigger] gs@[g],
                        ) == spec_gs[g] by {}
                    }
                    Ok(gs)
                },
                Err(e) => Err(e),
            }
        },
        CollapseMode::ByIndices => {
            let kind_ok = match &idx.data {
                Data::Num(_) => true,
                _ => false,
            };
            if !kind_ok {
                return Err(UiuaError::DomainError);
            }
            match values.group_groups(idx) {
                Ok(gs) => {
                    proof {
                        let spec_gs = group_views(vv, iv.rank() as int, nums_of(iv.cells));
                        assert forall|g: int| 0 <= g < gs@.len() implies arr_view(
                            #[trigger] gs@[g],
                        ) == spec_gs[g] by {}
                    }
                    Ok(gs)
                },
                Err(e) => Err(e),
            }
        },
    }
}


/// Once the map form fails, later steps report the same failure.
pub proof fn lemma_map_run_err(
    fun: Function,
    args: nat,
    outs: nat,
    groups: Seq<ArrView>,
    s: Seq<ArrView>,
    k1: nat,
    k2: nat,
)
    requires
        k1 <= k2,
        map_run(fun, args, outs, groups, s, k1) is Err,
    ensures
        map_run(fun, args, outs, groups, s, k2) == map_run(fun, args, outs, groups, s, k1),
    decreases k2,
{
    if k2 > k1 {
        lemma_map_run_err(fun, args, outs, groups, s, k1, (k2 - 1) as nat);
    }
}

/// Once the reducing form fails, later steps report the same failure.
pub proof fn lemma_reduce_run_err(
    fun: Function,
    groups: Seq<ArrView>,
    s: Seq<ArrView>,
    acc: ArrView,
    k1: nat,
    k2: nat,
)
    requires
        k1 <= k2,
        reduce_run(fun, groups, s, acc, k1) is Err,
    ensures
        reduce_run(fun, groups, s, acc, k2) == reduce_run(fun, groups, s, acc, k1),
    decreases k2,
{
    if k2 > k1 {
        lemma_reduce_run_err(fun, groups, s, acc, k1, (k2 - 1) as nat);
    }
}
/// The collapse shared by `partition` and `group`: pops the applied
/// function, the marker/index array, and the values; gathers groups;
/// and dispatches on the function's signature to the map or the reducing
/// form, with the ambient fill value masked while groups are processed.
#[verifier::rlimit(100)]
fn collapse_groups(mode: CollapseMode, env: &mut Uiua) -> (r: UiuaResult)
    requires
        old(env).wf(),
    ensures
        final(env).wf(),
        final(env).fill == old(env).fill,
        old(env).function_stack@.len() > 0 ==> final(env).function_stack@ == old(
            env,
        ).function_stack@.drop_last(),
        old(env).function_stack@.len() == 0 ==> final(env).function_stack@ == old(
            env,
        ).function_stack@,
        collapse_ensures(
            mode,
            old(env).function_stack@,
            old(env).stack_view(),
            old(env).fill_view(),
            r,
            final(env).stack_view(),
        ),
{
    let f = match env.pop_function() {
        Ok(f) => f,
        Err(e) => {
            return Err(e);
        },
    };
    let sig = f.signature();
    proof {
        crate::env::lemma_sig_bounds(f);
    }
    if !(sig.args <= 1 || (sig.args == 2 && sig.outputs == 1)) {
        return Err(UiuaError::SignatureError(sig));
    }
    if env.stack.len() < 2 {
        let e = match env.pop(StackRole::Argument) {
            Ok(_) => UiuaError::StackUnderflow(StackRole::Argument),
            Err(e) => e,
        };
        return Err(UiuaError::StackUnderflow(StackRole::Argument));
    }
    let idx = match env.pop(StackRole::Argument) {
        Ok(v) => v,
        Err(e) => {
            proof {
                assert(false);
            }
            return Err(e);
        },
    };
    let values = match env.pop(StackRole::Argument) {
        Ok(v) => v,
        Err(e) => {
            proof {
                assert(false);
            }
            return Err(e);
        },
    };
    let ghost s = old(env).stack_view();
    let ghost rest = s.drop_last().drop_last();
    proof {
        assert(env.stack_view() =~= rest);
        assert(arr_view(idx) == s.last());
        assert(arr_view(values) == s.drop_last().last());
        assert(s.drop_last().last() == s[s.len() - 2]);
    }
    let ghost vv = arr_view(values);
    let ghost iv = arr_view(idx);
    let acc_init = env.fill_dup();
    let groups = match gather_groups(mode, values, &idx) {
        Ok(gs) => gs,
        Err(e) => {
            return Err(e);
        },
    };
    let ghost gviews = groups_spec(mode, vv, iv)->Ok_0;
    let ghost ng = gviews.len();
    proof {
        lemma_arr_views(groups@);
        assert(arr_views(groups@) =~= gviews);
    }
    // mask the fill value for the duration of the group processing
    let saved = env.take_fill();
    let r = collapse_phases(f, sig, groups, acc_init, env);
    let ghost phase_stack = env.stack_view();
    env.set_fill(saved);
    proof {
        assert(env.stack_view() == phase_stack);
    }
    r
}

/// Runs the map or the reducing form over the gathered groups; the fill
/// value is already masked, and `acc_init` holds the fill read before
/// masking.
#[verifier::rlimit(100)]
#[verifier::spinoff_prover]
#[verifier::loop_isolation(false)]
fn collapse_phases(
    f: Function,
    sig: Signature,
    groups: Vec<Array>,
    acc_init: Option<Array>,
    env: &mut Uiua,
) -> (r: UiuaResult)
    requires
        old(env).wf(),
        f.wf(),
        sig == f.sig_spec(),
        sig.args <= 1 || (sig.args == 2 && sig.outputs == 1),
        forall|g: int| 0 <= g < groups@.len() ==> (#[trigger] groups@[g]).wf(),
        match acc_init {
            Some(a) => a.wf(),
            None => true,
        },
    ensures
        final(env).wf(),
        final(env).fill == old(env).fill,
        final(env).function_stack@ == old(env).function_stack@,
        ({
            let gviews = arr_views(groups@);
            let rest = old(env).stack_view();
            if sig.args <= 1 {
                match map_run(f, sig.args as nat, sig.outputs as nat, gviews, rest, gviews.len()) {
                    Err(e) => r == Err::<(), UiuaError>(e),
                    Ok((t, rows)) => {
                        if forall|o: int| 0 <= o < sig.outputs ==> uniform_ok(#[trigger] rows[o]) {
                            r == Ok::<(), UiuaError>(()) && final(env).stack_view()
                                == push_results(t, rows, sig.outputs as nat, sig.outputs as nat)
                        } else {
                            r == Err::<(), UiuaError>(UiuaError::ShapeMismatch)
                        }
                    },
                }
            } else {
                match acc_init {
                    Some(fv) => match reduce_run(f, gviews, rest, arr_view(fv), gviews.len()) {
                        Err(e) => r == Err::<(), UiuaError>(e),
                        Ok((t, a)) => r == Ok::<(), UiuaError>(()) && final(env).stack_view()
                            == t.push(a),
                    },
                    None => {
                        if gviews.len() == 0 {
                            r == Err::<(), UiuaError>(UiuaError::DomainError)
                        } else {
                            match reduce_run(
                                f,
                                gviews.skip(1),
                                rest,
                                gviews[0],
                                (gviews.len() - 1) as nat,
                            ) {
                                Err(e) => r == Err::<(), UiuaError>(e),
                                Ok((t, a)) => r == Ok::<(), UiuaError>(()) && final(
                                    env
                                ).stack_view() == t.push(a),
                            }
                        }
                    },
                }
            }
        }),
{
    let ghost gviews = arr_views(groups@);
    let ghost rest = old(env).stack_view();
    proof {
        lemma_arr_views(groups@);
    }
    let n_groups = groups.len();
    if sig.args <= 1 {
        let outs = sig.outputs;
        let mut rows: Vec<Vec<Array>> = Vec::new();
        let mut o: usize = 0;
        while o < outs
            invariant
                o <= outs,
                rows@.len() == o,
                forall|j: int| 0 <= j < o ==> (#[trigger] rows@[j])@.len() == 0,
            decreases outs - o,
        {
            rows.push(Vec::new());
            o += 1;
        }
        let mut k: usize = 0;
        while k < n_groups
            invariant
                k <= n_groups,
                env.wf(),
                f.wf(),
                sig == f.sig_spec(),
                sig.args <= 1,
                outs == sig.outputs,
                env.fill == old(env).fill,
                env.function_stack@ == old(env).function_stack@,
                rest == old(env).stack_view(),
                gviews == arr_views(groups@),
                gviews.len() == n_groups,
                groups@.len() == n_groups,
                forall|j: int|
                    0 <= j < n_groups ==> arr_view(#[trigger] groups@[j]) == gviews[j]
                        && groups@[j].wf(),
                rows@.len() == outs,
                map_run(f, sig.args as nat, outs as nat, gviews, rest, k as nat) matches Ok(st)
                    && st.0 == env.stack_view() && st.1.len() == outs && (forall|j: int|
                    0 <= j < outs ==> (#[trigger] st.1[j]).len() == rows@[j]@.len()) && (forall|
                    j: int,
                    x: int,
                |
                    0 <= j < outs && 0 <= x < st.1[j].len() ==> #[trigger] st.1[j][x] == arr_view(
                        rows@[j]@[x],
                    )),
                forall|j: int, x: int|
                    0 <= j < outs && 0 <= x < rows@[j]@.len() ==> (#[trigger] rows@[j]@[x]).wf(),
            decreases n_groups - k,
        {
            let g = groups[k].duplicate();
            let ghost pre_stack = env.stack_view();
            let ghost pre_rows = map_run(f, sig.args as nat, outs as nat, gviews, rest, k as nat)->Ok_0.1;
            if sig.args == 1 {
                env.push(g);
            }
            let ghost s1 = env.stack_view();
            match env.call(&f) {
                Ok(()) => {},
                Err(e) => {
                    proof {
                        if sig.args == 1 {
                            assert(s1 =~= pre_stack.push(gviews[k as int]));
                        }
                        assert(map_step(f, sig.args as nat, outs as nat, gviews[k as int], pre_stack, pre_rows)
                            == Err::<(Seq<ArrView>, Seq<Seq<ArrView>>), UiuaError>(e));
                        assert(map_run(f, sig.args as nat, outs as nat, gviews, rest, (k + 1) as nat)
                            == Err::<(Seq<ArrView>, Seq<Seq<ArrView>>), UiuaError>(e));
                        lemma_map_run_err(
                            f,
                            sig.args as nat,
                            sig.outputs as nat,
                            gviews,
                            rest,
                            (k + 1) as nat,
                            gviews.len(),
                        );
                    }
                    return Err(e);
                },
            }
            let ghost t = env.stack_view();
            proof {
                lemma_call_len(f, s1);
            }
            let mut o2: usize = 0;
            while o2 < outs
                invariant
                    o2 <= outs,
                    env.wf(),
                    outs <= 2,
                    env.fill == old(env).fill,
                    env.function_stack@ == old(env).function_stack@,
                    t.len() >= outs,
                    env.stack_view() == t.take(t.len() - o2),
                    rows@.len() == outs,
                    forall|j: int|
                        0 <= j < outs ==> (#[trigger] rows@[j])@.len() == pre_rows[j].len() + (
                        if j < o2 {
                            1int
                        } else {
                            0int
                        }),
                    forall|j: int, x: int|
                        0 <= j < outs && 0 <= x < pre_rows[j].len() ==> #[trigger] pre_rows[j][x]
                            == arr_view(rows@[j]@[x]),
                    forall|j: int|
                        0 <= j < o2 ==> arr_view(#[trigger] rows@[j]@[pre_rows[j].len() as int])
                            == t[t.len() - 1 - j],
                    forall|j: int, x: int|
                        0 <= j < outs && 0 <= x < rows@[j]@.len() ==> (
                        #[trigger] rows@[j]@[x]).wf(),
                    pre_rows.len() == outs,
                decreases outs - o2,
            {
                let v = match env.pop(StackRole::FunctionResult) {
                    Ok(v) => v,
                    Err(e) => {
                        proof {
                            assert(false);
                        }
                        return Err(e);
                    },
                };
                proof {
                    assert(arr_view(v) == t.take(t.len() - o2).last());
                    assert(t.take(t.len() - o2).last() == t[t.len() - 1 - o2]);
                    assert(env.stack_view() =~= t.take(t.len() - (o2 + 1)));
                }
                let mut tmp = rows.remove(o2);
                tmp.push(v);
                rows.insert(o2, tmp);
                o2 += 1;
            }
            proof {
                if sig.args == 1 {
                    assert(s1 =~= pre_stack.push(gviews[k as int]));
                }
                let stepped = map_step(
                    f,
                    sig.args as nat,
                    outs as nat,
                    gviews[k as int],
                    pre_stack,
                    pre_rows,
                );
                assert(stepped is Ok);
                assert(stepped->Ok_0.0 =~= env.stack_view());
                assert(map_run(f, sig.args as nat, outs as nat, gviews, rest, (k + 1) as nat)
                    == stepped);
                assert forall|j: int| 0 <= j < outs implies (#[trigger] stepped->Ok_0.1[j]).len()
                    == rows@[j]@.len() by {
                    assert(stepped->Ok_0.1[j] == pre_rows[j].push(t[t.len() - 1 - j]));
                }
                assert forall|j: int, x: int|
                    0 <= j < outs && 0 <= x < stepped->Ok_0.1[j].len() implies #[trigger] stepped
                    ->Ok_0.1[j][x] == arr_view(rows@[j]@[x]) by {
                    assert(stepped->Ok_0.1[j] == pre_rows[j].push(t[t.len() - 1 - j]));
                    if x < pre_rows[j].len() {
                    } else {
                        assert(stepped->Ok_0.1[j][x] == t[t.len() - 1 - j]);
                        assert(arr_view(rows@[j]@[x]) == t[t.len() - 1 - j]);
                    }
                }
            }
            k += 1;
        }
        // push the collected results, first declared output on top
        let ghost st_end = map_run(f, sig.args as nat, outs as nat, gviews, rest, n_groups as nat)->Ok_0;
        let mut pushed: usize = 0;
        let mut rows = rows;
        while rows.len() > 0
            invariant
                pushed + rows@.len() == outs,
                env.wf(),
                f.wf(),
                env.fill == old(env).fill,
                env.function_stack@ == old(env).function_stack@,
                rest == old(env).stack_view(),
                gviews == arr_views(groups@),
                gviews.len() == n_groups,
                map_run(f, sig.args as nat, outs as nat, gviews, rest, n_groups as nat)
                    == Ok::<(Seq<ArrView>, Seq<Seq<ArrView>>), UiuaError>(st_end),
                outs == sig.outputs,
                sig == f.sig_spec(),
                sig.args <= 1,
                st_end.1.len() == outs,
                forall|j: int|
                    0 <= j < rows@.len() ==> (#[trigger] st_end.1[j]).len() == rows@[j]@.len()
                        && (forall|x: int|
                        0 <= x < rows@[j]@.len() ==> st_end.1[j][x] == arr_view(
                            #[trigger] rows@[j]@[x],
                        )),
                forall|j: int, x: int|
                    0 <= j < rows@.len() && 0 <= x < rows@[j]@.len() ==> (
                    #[trigger] rows@[j]@[x]).wf(),
                forall|j: int| 0 <= j < pushed ==> uniform_ok(#[trigger] st_end.1[outs - 1 - j]),
                env.stack_view() == push_results(st_end.0, st_end.1, outs as nat, pushed as nat),
            decreases rows.len(),
        {
            let grp = rows.pop().unwrap();
            let ghost j = rows@.len() as int;
            proof {
                lemma_arr_views(grp@);
                assert forall|x: int| 0 <= x < grp@.len() implies (#[trigger] grp@[x]).wf() by {}
            }
            let arr = match Array::from_row_values(grp) {
                Ok(arr) => arr,
                Err(_) => {
                    proof {
                        assert forall|x: int| 0 <= x < grp@.len() implies arr_view(
                            #[trigger] grp@[x],
                        ) == st_end.1[j][x] by {}
                        assert(!uniform_ok(st_end.1[j])) by {
                            if uniform_ok(st_end.1[j]) {
                                assert forall|x: int| 0 <= x < grp@.len() implies (
                                #[trigger] arr_view(grp@[x])).kind == arr_view(grp@[0]).kind
                                    && arr_view(grp@[x]).shape == arr_view(grp@[0]).shape by {
                                    assert(arr_view(grp@[x]) == st_end.1[j][x]);
                                    assert(arr_view(grp@[0]) == st_end.1[j][0]);
                                }
                            }
                        }
                        assert(!(forall|o3: int|
                            0 <= o3 < sig.outputs ==> uniform_ok(#[trigger] st_end.1[o3]))) by {
                            assert(0 <= j < sig.outputs);
                            assert(!uniform_ok(st_end.1[j]));
                        }
                    }
                    return Err(UiuaError::ShapeMismatch);
                },
            };
            proof {
                assert forall|x: int| 0 <= x < grp@.len() implies arr_view(#[trigger] grp@[x])
                    == st_end.1[j][x] by {}
                assert(uniform_ok(st_end.1[j])) by {
                    assert forall|x: int| 0 <= x < st_end.1[j].len() implies (
                    #[trigger] st_end.1[j][x]).kind == st_end.1[j][0].kind && st_end.1[j][x].shape
                        == st_end.1[j][0].shape by {
                        assert(st_end.1[j][x] == arr_view(grp@[x]));
                        assert(st_end.1[j][0] == arr_view(grp@[0]));
                    }
                }
                assert(arr_view(arr) == rows_to_view(st_end.1[j])) by {
                    if grp@.len() == 0 {
                        assert(arr_view(arr) =~= empty_group_view());
                        assert(st_end.1[j].len() == 0);
                    } else {
                        assert(arr_views(grp@) =~= st_end.1[j]);
                        assert(arr_view(arr) =~= stacked(
                            st_end.1[j],
                            st_end.1[j][0].shape,
                            st_end.1[j][0].kind,
                        ));
                    }
                }
            }
            env.push(arr);
            pushed += 1;
        }
        proof {
            assert forall|o3: int| 0 <= o3 < sig.outputs implies uniform_ok(
                #[trigger] st_end.1[o3],
            ) by {
                assert(uniform_ok(st_end.1[outs - 1 - (outs - 1 - o3)]));
            }
        }
        Ok(())
    } else {
        // reducing form
        let from_fill = match &acc_init {
            Some(_) => true,
            None => false,
        };
        let mut acc = match acc_init {
            Some(a) => a,
            None => {
                if n_groups == 0 {
                    return Err(UiuaError::DomainError);
                }
                groups[0].duplicate()
            },
        };
        let ghost fold_groups = if from_fill {
            gviews
        } else {
            gviews.skip(1)
        };
        let ghost acc0 = if from_fill {
            arr_view(acc_init->0)
        } else {
            gviews[0]
        };
        proof {
            assert(arr_view(acc) == acc0);
        }
        let mut k: usize = 0;
        let ghost nfold = fold_groups.len() as int;
        let bound: usize = if from_fill {
            n_groups
        } else {
            n_groups - 1
        };
        while k < bound
            invariant
                bound == nfold,
                env.wf(),
                f.wf(),
                sig == f.sig_spec(),
                sig.args == 2 && sig.outputs == 1,
                env.fill == old(env).fill,
                env.function_stack@ == old(env).function_stack@,
                rest == old(env).stack_view(),
                gviews == arr_views(groups@),
                gviews.len() == n_groups,
                groups@.len() == n_groups,
                from_fill == (acc_init is Some),
                from_fill ==> fold_groups == gviews,
                !from_fill ==> fold_groups == gviews.skip(1) && n_groups > 0,
                acc0 == if from_fill {
                    arr_view(acc_init->0)
                } else {
                    gviews[0]
                },
                nfold == fold_groups.len(),
                k <= nfold,
                forall|j: int|
                    0 <= j < n_groups ==> arr_view(#[trigger] groups@[j]) == gviews[j]
                        && groups@[j].wf(),
                acc.wf(),
                reduce_run(f, fold_groups, rest, acc0, k as nat) matches Ok(st) && st.0
                    == env.stack_view() && st.1 == arr_view(acc),
            decreases nfold - k,
        {
            let gsrc: usize = if from_fill {
                k
            } else {
                k + 1
            };
            let g = groups[gsrc].duplicate();
            proof {
                assert(arr_view(g) == fold_groups[k as int]);
            }
            let ghost pre_stack = env.stack_view();
            let ghost pre_acc = arr_view(acc);
            env.push(g);
            env.push(acc);
            let ghost s1 = env.stack_view();
            match env.call(&f) {
                Ok(()) => {},
                Err(e) => {
                    proof {
                        assert(s1 =~= pre_stack.push(fold_groups[k as int]).push(pre_acc));
                        assert(reduce_step(f, fold_groups[k as int], pre_stack, pre_acc)
                            == Err::<(Seq<ArrView>, ArrView), UiuaError>(e));
                        assert(reduce_run(f, fold_groups, rest, acc0, (k + 1) as nat)
                            == Err::<(Seq<ArrView>, ArrView), UiuaError>(e));
                        lemma_reduce_run_err(
                            f,
                            fold_groups,
                            rest,
                            acc0,
                            (k + 1) as nat,
                            fold_groups.len(),
                        );
                    }
                    return Err(e);
                },
            }
            proof {
                assert(s1 =~= pre_stack.push(fold_groups[k as int]).push(pre_acc));
                lemma_call_len(f, s1);
            }
            acc = match env.pop(StackRole::ReducedResult) {
                Ok(v) => v,
                Err(e) => {
                    proof {
                        assert(false);
                    }
                    return Err(e);
                },
            };
            proof {
                assert(reduce_run(f, fold_groups, rest, acc0, (k + 1) as nat) matches Ok(st)
                    && st.0 == env.stack_view() && st.1 == arr_view(acc));
            }
            k += 1;
        }
        env.push(acc);
        Ok(())
    }
}

/// Pops a function, a rank-1 marker list, and a values array; splits the
/// values' rows into maximal runs of equal positive markers; and applies
/// the function over the groups in the map or the reducing form.
pub fn partition(env: &mut Uiua) -> (r: UiuaResult)
    requires
        old(env).wf(),
    ensures
        final(env).wf(),
        final(env).fill == old(env).fill,
        old(env).function_stack@.len() > 0 ==> final(env).function_stack@ == old(
            env,
        ).function_stack@.drop_last(),
        old(env).function_stack@.len() == 0 ==> final(env).function_stack@ == old(
            env,
        ).function_stack@,
        collapse_ensures(
            CollapseMode::ByMarkers,
            old(env).function_stack@,
            old(env).stack_view(),
            old(env).fill_view(),
            r,
            final(env).stack_view(),
        ),
{
    collapse_groups(CollapseMode::ByMarkers, env)
}

/// Pops a function, an index array, and a values array; assigns the
/// values' slices to groups by index; and applies the function over the
/// groups in the map or the reducing form.
pub fn group(env: &mut Uiua) -> (r: UiuaResult)
    requires
        old(env).wf(),
    ensures
        final(env).wf(),
        final(env).fill == old(env).fill,
        old(env).function_stack@.len() > 0 ==> final(env).function_stack@ == old(
            env,
        ).function_stack@.drop_last(),
        old(env).function_stack@.len() == 0 ==> final(env).function_stack@ == old(
            env,
        ).function_stack@,
        collapse_ensures(
            CollapseMode::ByIndices,
            old(env).function_stack@,
            old(env).stack_view(),
            old(env).fill_view(),
            r,
            final(env).stack_view(),
        ),
{
    collapse_groups(CollapseMode::ByIndices, env)
}

/// The boxed cells holding the given models.
pub open spec fn boxes_of(rs: Seq<ArrView>) -> Seq<CellView> {
    Seq::new(rs.len(), |i: int| CellView::B(rs[i]))
}

/// The models of all rows of a model, in order.
pub open spec fn all_rows(v: ArrView) -> Seq<ArrView> {
    Seq::new(v.row_count(), |i: int| v.row(i))
}

/// Untransforming rows: each row is pushed, the function is called, and
/// its result collected; an error aborts the remaining rows.
pub open spec fn untransform_run(
    f: Function,
    rows: Seq<ArrView>,
    role: StackRole,
    s: Seq<ArrView>,
    k: nat,
) -> Result<(Seq<ArrView>, Seq<ArrView>), UiuaError>
    decreases k,
{
    if k == 0 {
        Ok((s, Seq::empty()))
    } else {
        match untransform_run(f, rows, role, s, (k - 1) as nat) {
            Err(e) => Err(e),
            Ok((st, out)) => match call_spec(f, st.push(rows[k - 1])) {
                Err(e) => Err(e),
                Ok(t) => {
                    if t.len() < 1 {
                        Err(UiuaError::StackUnderflow(role))
                    } else {
                        Ok((t.drop_last(), out.push(t.last())))
                    }
                },
            },
        }
    }
}

/// Once untransforming fails, later steps report the same failure.
pub proof fn lemma_untransform_run_err(
    f: Function,
    rows: Seq<ArrView>,
    role: StackRole,
    s: Seq<ArrView>,
    k1: nat,
    k2: nat,
)
    requires
        k1 <= k2,
        untransform_run(f, rows, role, s, k1) is Err,
    ensures
        untransform_run(f, rows, role, s, k2) == untransform_run(f, rows, role, s, k1),
    decreases k2,
{
    if k2 > k1 {
        lemma_untransform_run_err(f, rows, role, s, k1, (k2 - 1) as nat);
    }
}

/// Applies the transform function to every row, collecting the results.
#[verifier::loop_isolation(false)]
fn untransform_rows(
    env: &mut Uiua,
    f: &Function,
    rows: Vec<Array>,
    role: StackRole,
) -> (r: Result<Vec<Array>, UiuaError>)
    requires
        old(env).wf(),
        f.wf(),
        forall|i: int| 0 <= i < rows@.len() ==> (#[trigger] rows@[i]).wf(),
    ensures
        final(env).wf(),
        final(env).fill == old(env).fill,
        final(env).function_stack@ == old(env).function_stack@,
        ({
            let run = untransform_run(
                *f,
                arr_views(rows@),
                role,
                old(env).stack_view(),
                rows@.len() as nat,
            );
            match r {
                Ok(out) => {
                    &&& run is Ok
                    &&& final(env).stack_view() == run->Ok_0.0
                    &&& arr_views(out@) == run->Ok_0.1
                    &&& forall|i: int| 0 <= i < out@.len() ==> (#[trigger] out@[i]).wf()
                },
                Err(e) => run is Err && e == run->Err_0,
            }
        }),
{
    let ghost rviews = arr_views(rows@);
    let ghost s0 = old(env).stack_view();
    proof {
        lemma_arr_views(rows@);
    }
    let n = rows.len();
    let mut out: Vec<Array> = Vec::new();
    let mut k: usize = 0;
    while k < n
        invariant
            k <= n,
            env.wf(),
            env.fill == old(env).fill,
            env.function_stack@ == old(env).function_stack@,
            untransform_run(*f, rviews, role, s0, k as nat) matches Ok(st) && st.0
                == env.stack_view() && st.1 == arr_views(out@),
            out@.len() == k,
            forall|i: int| 0 <= i < out@.len() ==> (#[trigger] out@[i]).wf(),
        decreases n - k,
    {
        let row = rows[k].duplicate();
        let ghost pre_stack = env.stack_view();
        let ghost pre_out = arr_views(out@);
        env.push(row);
        let ghost s1 = env.stack_view();
        match env.call(f) {
            Ok(()) => {},
            Err(e) => {
                proof {
                    assert(s1 =~= pre_stack.push(rviews[k as int]));
                    assert(untransform_run(*f, rviews, role, s0, (k + 1) as nat)
                        == Err::<(Seq<ArrView>, Seq<ArrView>), UiuaError>(e));
                    lemma_untransform_run_err(
                        *f,
                        rviews,
                        role,
                        s0,
                        (k + 1) as nat,
                        n as nat,
                    );
                }
                return Err(e);
            },
        }
        let ghost t = env.stack_view();
        let v = match env.pop(role) {
            Ok(v) => v,
            Err(e) => {
                proof {
                    assert(s1 =~= pre_stack.push(rviews[k as int]));
                    assert(untransform_run(*f, rviews, role, s0, (k + 1) as nat)
                        == Err::<(Seq<ArrView>, Seq<ArrView>), UiuaError>(
                        UiuaError::StackUnderflow(role),
                    ));
                    lemma_untransform_run_err(
                        *f,
                        rviews,
                        role,
                        s0,
                        (k + 1) as nat,
                        n as nat,
                    );
                }
                return Err(e);
            },
        };
        let ghost out_pre = out@;
        out.push(v);
        proof {
            assert(s1 =~= pre_stack.push(rviews[k as int]));
            lemma_arr_views(out_pre);
            lemma_arr_views(out@);
            assert(arr_views(out@) =~= pre_out.push(t.last()));
            assert(untransform_run(*f, rviews, role, s0, (k + 1) as nat) matches Ok(st)
                && st.0 == env.stack_view() && st.1 == arr_views(out@));
        }
        k += 1;
    }
    Ok(out)
}

/// What undoing a grouping transform yields, before reconstruction: the
/// popped function must have signature (1, 1); then every row of the
/// transformed array is untransformed and boxed, and the boxed list is
/// pushed.
pub open spec fn untransform_ensures(
    fns: Seq<Function>,
    s: Seq<ArrView>,
    role: StackRole,
    r: UiuaResult,
    out: Seq<ArrView>,
) -> bool {
    if fns.len() == 0 {
        r == Err::<(), UiuaError>(UiuaError::StackUnderflow(StackRole::Function)) && out == s
    } else {
        let f = fns.last();
        let sig = f.sig_spec();
        if sig.args != 1 || sig.outputs != 1 {
            r == Err::<(), UiuaError>(UiuaError::SignatureError(sig)) && out == s
        } else if s.len() == 0 {
            r == Err::<(), UiuaError>(UiuaError::StackUnderflow(StackRole::Argument)) && out == s
        } else {
            let v = s.last();
            let rest = s.drop_last();
            match untransform_run(f, all_rows(v), role, rest, v.row_count()) {
                Err(e) => r == Err::<(), UiuaError>(e),
                Ok((st, outs)) => r == Ok::<(), UiuaError>(()) && out == st.push(
                    crate::model::normalize_view(
                        ArrView {
                            shape: seq![outs.len() as usize],
                            kind: ArrayType::Value,
                            cells: boxes_of(outs),
                        },
                    ),
                ),
            }
        }
    }
}

/// Shared body of the two inverse-transform entry points.
#[verifier::loop_isolation(false)]
fn untransform_part1(env: &mut Uiua, role: StackRole) -> (r: UiuaResult)
    requires
        old(env).wf(),
    ensures
        final(env).wf(),
        final(env).fill == old(env).fill,
        old(env).function_stack@.len() > 0 ==> final(env).function_stack@ == old(
            env,
        ).function_stack@.drop_last(),
        old(env).function_stack@.len() == 0 ==> final(env).function_stack@ == old(
            env,
        ).function_stack@,
        untransform_ensures(
            old(env).function_stack@,
            old(env).stack_view(),
            role,
            r,
            final(env).stack_view(),
        ),
{
    let f = match env.pop_function() {
        Ok(f) => f,
        Err(e) => {
            return Err(e);
        },
    };
    let sig = f.signature();
    if sig.args != 1 || sig.outputs != 1 {
        return Err(UiuaError::SignatureError(sig));
    }
    let v = match env.pop(StackRole::Argument) {
        Ok(v) => v,
        Err(e) => {
            return Err(e);
        },
    };
    let ghost vv = arr_view(v);
    let rows = v.into_rows();
    proof {
        lemma_arr_views(rows@);
        assert(arr_views(rows@) =~= all_rows(vv));
    }
    let outs = match untransform_rows(env, &f, rows, role) {
        Ok(outs) => outs,
        Err(e) => {
            return Err(e);
        },
    };
    let ghost gouts = outs@;
    let boxed = Array::from_boxes(outs);
    proof {
        crate::model::lemma_box_cells(gouts);
        lemma_arr_views(gouts);
        assert(crate::model::box_cells(gouts) =~= boxes_of(arr_views(gouts)));
    }
    env.push(boxed);
    Ok(())
}

/// Pops the transform function (which must have signature (1, 1)) and
/// the partitioned array; untransforms each row and pushes the boxed
/// row list for reconstruction.
pub fn unpartition_part1(env: &mut Uiua) -> (r: UiuaResult)
    requires
        old(env).wf(),
    ensures
        final(env).wf(),
        final(env).fill == old(env).fill,
        old(env).function_stack@.len() > 0 ==> final(env).function_stack@ == old(
            env,
        ).function_stack@.drop_last(),
        old(env).function_stack@.len() == 0 ==> final(env).function_stack@ == old(
            env,
        ).function_stack@,
        untransform_ensures(
            old(env).function_stack@,
            old(env).stack_view(),
            StackRole::UnpartitionedRow,
            r,
            final(env).stack_view(),
        ),
{
    untransform_part1(env, StackRole::UnpartitionedRow)
}

/// Pops the transform function (which must have signature (1, 1)) and
/// the grouped array; untransforms each row and pushes the boxed row
/// list for reconstruction.
pub fn ungroup_part1(env: &mut Uiua) -> (r: UiuaResult)
    requires
        old(env).wf(),
    ensures
        final(env).wf(),
        final(env).fill == old(env).fill,
        old(env).function_stack@.len() > 0 ==> final(env).function_stack@ == old(
            env,
        ).function_stack@.drop_last(),
        old(env).function_stack@.len() == 0 ==> final(env).function_stack@ == old(
            env,
        ).function_stack@,
        untransform_ensures(
            old(env).function_stack@,
            old(env).stack_view(),
            StackRole::UngroupedRow,
            r,
            final(env).stack_view(),
        ),
{
    untransform_part1(env, StackRole::UngroupedRow)
}

/// The maximal runs of equal adjacent markers over the first `k`
/// markers: each entry is the marker and the run length.
pub open spec fn runs(ms: Seq<i64>, k: nat) -> Seq<(i64, int)>
    decreases k,
{
    if k == 0 {
        Seq::empty()
    } else {
        let r = runs(ms, (k - 1) as nat);
        if k >= 2 && ms[k - 2] == ms[k - 1] {
            r.update(r.len() - 1, (ms[k - 1], r.last().1 + 1))
        } else {
            r.push((ms[k - 1], 1))
        }
    }
}

/// How many runs carry a positive marker.
pub open spec fn pos_runs(rs: Seq<(i64, int)>) -> int
    decreases rs.len(),
{
    if rs.len() == 0 {
        0
    } else {
        pos_runs(rs.drop_last()) + if rs.last().0 > 0 {
            1int
        } else {
            0int
        }
    }
}

/// Run lengths are positive and sum to the marker count.
pub proof fn lemma_runs_props(ms: Seq<i64>, k: nat)
    ensures
        forall|j: int| 0 <= j < runs(ms, k).len() ==> (#[trigger] runs(ms, k)[j]).1 >= 1,
        sum_lens(runs(ms, k)) == k,
        k > 0 ==> runs(ms, k).len() >= 1,
        k > 0 ==> runs(ms, k).last().0 == ms[k - 1],
    decreases k,
{
    if k > 0 {
        lemma_runs_props(ms, (k - 1) as nat);
        let pre = runs(ms, (k - 1) as nat);
        let post = runs(ms, k);
        if k >= 2 && ms[k - 2] == ms[k - 1] {
            assert(pre.len() >= 1);
            assert(post == pre.update(pre.len() - 1, (ms[k - 1], pre.last().1 + 1)));
            assert(post.drop_last() =~= pre.drop_last());
            assert(sum_lens(post) == sum_lens(pre.drop_last()) + pre.last().1 + 1);
            assert(sum_lens(pre) == sum_lens(pre.drop_last()) + pre.last().1);
            assert forall|j: int| 0 <= j < post.len() implies (#[trigger] post[j]).1 >= 1 by {
                if j < pre.len() - 1 {
                    assert(post[j] == pre[j]);
                }
            }
        } else {
            assert(post == pre.push((ms[k - 1], 1)));
            assert(post.drop_last() =~= pre);
            assert forall|j: int| 0 <= j < post.len() implies (#[trigger] post[j]).1 >= 1 by {
                if j < pre.len() {
                    assert(post[j] == pre[j]);
                }
            }
        }
    }
}

/// The total length of a list of runs.
pub open spec fn sum_lens(rs: Seq<(i64, int)>) -> int
    decreases rs.len(),
{
    if rs.len() == 0 {
        0
    } else {
        sum_lens(rs.drop_last()) + rs.last().1
    }
}

/// The model inside a boxed scalar, or the model itself.
pub open spec fn unbox_view(v: ArrView) -> ArrView {
    if v.kind is Value && v.rank() == 0 {
        v.cells[0]->B_0
    } else {
        v
    }
}

/// The unboxed models of all rows of a boxed row list.
pub open spec fn unboxed_rows(v: ArrView) -> Seq<ArrView> {
    Seq::new(v.row_count(), |g: int| unbox_view(v.row(g)))
}

/// Reconstructing the original rows from the first `j` runs: a positive
/// run draws the next transformed group, whose row count must equal the
/// run length; any other run copies the original rows of the run.
pub open spec fn unpartition_rows(
    rs: Seq<(i64, int)>,
    groups: Seq<ArrView>,
    orig: ArrView,
    j: nat,
) -> Result<(Seq<ArrView>, int, int), UiuaError>
    decreases j,
{
    if j == 0 {
        Ok((Seq::empty(), 0, 0))
    } else {
        match unpartition_rows(rs, groups, orig, (j - 1) as nat) {
            Err(e) => Err(e),
            Ok((rows, off, gc)) => {
                let m = rs[j - 1].0;
                let len = rs[j - 1].1;
                if m > 0 {
                    if gc >= groups.len() || groups[gc].row_count() != len {
                        Err(UiuaError::ConsistencyError)
                    } else {
                        Ok((rows + all_rows(groups[gc]), off + len, gc + 1))
                    }
                } else {
                    Ok(
                        (
                            rows + Seq::new(len as nat, |x: int| orig.row(off + x)),
                            off + len,
                            gc,
                        ),
                    )
                }
            },
        }
    }
}

/// What reconstructing a partition yields: the markers must be a rank-1
/// number list as long as the original has rows, and the surviving-run
/// count must equal the transformed array's row count.
pub open spec fn unpartition_ensures(
    s: Seq<ArrView>,
    r: UiuaResult,
    out: Seq<ArrView>,
) -> bool {
    if s.len() < 3 {
        r == Err::<(), UiuaError>(UiuaError::StackUnderflow(StackRole::Argument))
    } else {
        let u = s.last();
        let mv = s[s.len() - 2];
        let orig = s[s.len() - 3];
        let rest = s.drop_last().drop_last().drop_last();
        if !(mv.kind is Num && mv.rank() == 1) {
            r == Err::<(), UiuaError>(UiuaError::DomainError)
        } else {
            let ms = nums_of(mv.cells);
            let rr = runs(ms, ms.len() as nat);
            if ms.len() != orig.row_count() {
                r == Err::<(), UiuaError>(UiuaError::ConsistencyError)
            } else if pos_runs(rr) != u.row_count() {
                r == Err::<(), UiuaError>(UiuaError::ConsistencyError)
            } else {
                match unpartition_rows(rr, unboxed_rows(u), orig, rr.len() as nat) {
                    Err(e) => r == Err::<(), UiuaError>(e),
                    Ok((rows, _, _)) => {
                        if uniform_ok(rows) {
                            r == Ok::<(), UiuaError>(()) && out == rest.push(rows_to_view(rows))
                        } else {
                            r == Err::<(), UiuaError>(UiuaError::ShapeMismatch)
                        }
                    },
                }
            }
        }
    }
}

/// Pops the untransformed row list, the original markers, and the
/// original array, and reconstructs the array row by row: positive
/// marker runs draw the next transformed group's rows 1:1, other runs
/// copy the original rows verbatim.
#[verifier::rlimit(100)]
#[verifier::spinoff_prover]
#[verifier::loop_isolation(false)]
pub fn unpartition_part2(env: &mut Uiua) -> (r: UiuaResult)
    requires
        old(env).wf(),
    ensures
        final(env).wf(),
        final(env).fill == old(env).fill,
        final(env).function_stack@ == old(env).function_stack@,
        unpartition_ensures(old(env).stack_view(), r, final(env).stack_view()),
{
    if env.stack.len() < 3 {
        proof {
            lemma_arr_views(env.stack@);
        }
        return Err(UiuaError::StackUnderflow(StackRole::Argument));
    }
    proof {
        lemma_arr_views(env.stack@);
    }
    let u = match env.pop(StackRole::Argument) {
        Ok(v) => v,
        Err(e) => {
            proof {
                assert(false);
            }
            return Err(e);
        },
    };
    let mv = match env.pop(StackRole::Argument) {
        Ok(v) => v,
        Err(e) => {
            proof {
                assert(false);
            }
            return Err(e);
        },
    };
    let orig = match env.pop(StackRole::Argument) {
        Ok(v) => v,
        Err(e) => {
            proof {
                assert(false);
            }
            return Err(e);
        },
    };
    let ghost s = old(env).stack_view();
    let ghost rest = s.drop_last().drop_last().drop_last();
    proof {
        assert(env.stack_view() =~= rest);
        assert(arr_view(mv) == s[s.len() - 2]) by {
            assert(s.drop_last().last() == s[s.len() - 2]);
        }
        assert(arr_view(orig) == s[s.len() - 3]) by {
            assert(s.drop_last().drop_last().last() == s[s.len() - 3]);
        }
    }
    let ghost uv = arr_view(u);
    let ghost ov = arr_view(orig);
    let kind_ok = match (&mv.data, mv.shape.len()) {
        (Data::Num(_), 1) => true,
        _ => false,
    };
    if !kind_ok {
        return Err(UiuaError::DomainError);
    }
    let ms: Vec<i64> = match mv.data {
        Data::Num(b) => b,
        _ => {
            proof {
                assert(false);
            }
            return Err(UiuaError::DomainError);
        },
    };
    let ghost msv = nums_of(arr_view(mv).cells);
    proof {
        assert(msv.len() == ms@.len());
        assert forall|i: int| 0 <= i < ms@.len() implies msv[i] == ms@[i] by {
            assert(arr_view(mv).cells[i] == CellView::N(ms@[i]));
        }
        assert(msv =~= ms@);
    }
    let n = ms.len();
    if n != orig.row_count() {
        return Err(UiuaError::ConsistencyError);
    }
    // compute the marker runs
    let mut rr: Vec<(i64, usize)> = Vec::new();
    let mut npos: usize = 0;
    let mut i: usize = 0;
    while i < n
        invariant
            i <= n,
            rr@.len() == runs(msv, i as nat).len(),
            forall|j: int|
                0 <= j < rr@.len() ==> (#[trigger] rr@[j]).0 == runs(msv, i as nat)[j].0 && rr@[
                    j].1 == runs(msv, i as nat)[j].1,
            npos == pos_runs(runs(msv, i as nat)),
            npos <= i,
            forall|j: int| 0 <= j < rr@.len() ==> 1 <= (#[trigger] rr@[j]).1 <= i,
        decreases n - i,
    {
        proof {
            lemma_runs_props(msv, i as nat);
            lemma_runs_props(msv, (i + 1) as nat);
        }
        let m = ms[i];
        if i >= 1 && rr.len() > 0 && m == ms[i - 1] {
            let last = rr.pop().unwrap();
            proof {
                assert(runs(msv, i as nat).len() >= 1);
                assert(msv[i as int] == m && msv[i - 1] == m);
                assert(runs(msv, (i + 1) as nat) == runs(msv, i as nat).update(
                    runs(msv, i as nat).len() - 1,
                    (msv[i as int], runs(msv, i as nat).last().1 + 1),
                ));
                assert(pos_runs(runs(msv, (i + 1) as nat)) == pos_runs(runs(msv, i as nat))) by {
                    assert(runs(msv, (i + 1) as nat).drop_last() =~= runs(
                        msv,
                        i as nat,
                    ).drop_last());
                    assert(runs(msv, i as nat).last().0 == msv[i - 1]);
                    assert(runs(msv, (i + 1) as nat).last().0 == msv[i as int]);
                }
            }
            rr.push((m, last.1 + 1));
        } else {
            proof {
                if i >= 1 && m == msv[i - 1] {
                    lemma_runs_props(msv, i as nat);
                    assert(runs(msv, i as nat).len() >= 1);
                }
                assert(runs(msv, (i + 1) as nat) == runs(msv, i as nat).push((msv[i as int], 1)));
                assert(runs(msv, (i + 1) as nat).drop_last() =~= runs(msv, i as nat));
            }
            rr.push((m, 1));
            if m > 0 {
                npos += 1;
            }
        }
        i += 1;
    }
    proof {
        lemma_runs_props(msv, n as nat);
    }
    let ghost rrv = runs(msv, n as nat);
    // surviving groups must match the transformed row count
    let urc = u.row_count();
    if npos != urc {
        return Err(UiuaError::ConsistencyError);
    }
    // unbox the transformed groups
    let urows = u.into_rows();
    let ghost urows0 = urows@;
    let mut groups: Vec<Array> = Vec::new();
    let mut urows = urows;
    let mut grev: Vec<Array> = Vec::new();
    while urows.len() > 0
        invariant
            urows@.len() + grev@.len() == urc,
            urows0.len() == urc,
            urows@ == urows0.subrange(0, urows@.len() as int),
            forall|j: int| 0 <= j < grev@.len() ==> grev@[j] == urows0[urc - 1 - j],
        decreases urows.len(),
    {
        let r0 = urows.pop().unwrap();
        proof {
            assert(urows0.subrange(0, urows0.len() as int) =~= urows0);
        }
        grev.push(r0);
        proof {
            assert(urows@ =~= urows0.subrange(0, urows@.len() as int));
        }
    }
    while grev.len() > 0
        invariant
            groups@.len() + grev@.len() == urc,
            urows0.len() == urc,
            view_wf(uv),
            forall|j: int| 0 <= j < urows0.len() ==> arr_view(#[trigger] urows0[j]) == uv.row(j)
                && urows0[j].wf(),
            forall|j: int| 0 <= j < grev@.len() ==> grev@[j] == urows0[urc - 1 - j],
            forall|j: int|
                0 <= j < groups@.len() ==> arr_view(#[trigger] groups@[j]) == unboxed_rows(uv)[j]
                    && groups@[j].wf(),
        decreases grev.len(),
    {
        let g = grev.pop().unwrap();
        let ghost j = groups@.len() as int;
        proof {
            assert(g == urows0[j]);
        }
        let g2 = g.unboxed();
        groups.push(g2);
    }
    // reconstruct
    let orows = orig.into_rows();
    let ghost gviews = unboxed_rows(uv);
    proof {
        lemma_arr_views(groups@);
    }
    let nr = rr.len();
    let mut rows_out: Vec<Array> = Vec::new();
    let mut off: usize = 0;
    let mut gc: usize = 0;
    let mut j: usize = 0;
    while j < nr
        invariant
            j <= nr,
            nr == rrv.len(),
            n == msv.len(),
            view_wf(ov),
            ov.row_count() == n,
            orows@.len() == n,
            groups@.len() == urc,
            gviews.len() == urc,
            forall|x: int| 0 <= x < n ==> arr_view(#[trigger] orows@[x]) == ov.row(x)
                && orows@[x].wf(),
            forall|x: int|
                0 <= x < urc ==> arr_view(#[trigger] groups@[x]) == gviews[x] && groups@[x].wf(),
            forall|x: int|
                0 <= x < rr@.len() ==> (#[trigger] rr@[x]).0 == rrv[x].0 && rr@[x].1 == rrv[x].1,
            rr@.len() == nr,
            unpartition_rows(rrv, gviews, ov, j as nat) matches Ok(st) && st.1 == off && st.2
                == gc && st.0.len() == rows_out@.len() && (forall|x: int|
                0 <= x < rows_out@.len() ==> st.0[x] == arr_view(#[trigger] rows_out@[x])),
            forall|x: int| 0 <= x < rows_out@.len() ==> (#[trigger] rows_out@[x]).wf(),
            off <= n,
            gc <= urc,
        decreases nr - j,
    {
        let (m, len) = rr[j];
        let ghost pre = unpartition_rows(rrv, gviews, ov, j as nat)->Ok_0;
        proof {
            lemma_runs_props(msv, n as nat);
        }
        if m > 0 {
            if gc >= groups.len() {
                proof {
                    assert(unpartition_rows(rrv, gviews, ov, (j + 1) as nat)
                        == Err::<(Seq<ArrView>, int, int), UiuaError>(UiuaError::ConsistencyError));
                    lemma_unpartition_err(rrv, gviews, ov, (j + 1) as nat, nr as nat);
                }
                return Err(UiuaError::ConsistencyError);
            }
            let g = groups[gc].duplicate();
            if g.row_count() != len {
                proof {
                    assert(unpartition_rows(rrv, gviews, ov, (j + 1) as nat)
                        == Err::<(Seq<ArrView>, int, int), UiuaError>(UiuaError::ConsistencyError));
                    lemma_unpartition_err(rrv, gviews, ov, (j + 1) as nat, nr as nat);
                }
                return Err(UiuaError::ConsistencyError);
            }
            let mut grows = g.into_rows();
            let ghost grows0 = grows@;
            proof {
                lemma_arr_views(grows0);
            }
            let ghost rows_pre = rows_out@;
            rows_out.append(&mut grows);
            proof {
                lemma_arr_views(rows_pre);
                assert forall|x: int|
                    0 <= x < rows_out@.len() implies (pre.0 + all_rows(gviews[gc as int]))[x]
                    == arr_view(#[trigger] rows_out@[x]) by {
                    if x < rows_pre.len() {
                        assert(rows_out@[x] == rows_pre[x]);
                    } else {
                        assert(rows_out@[x] == grows0[x - rows_pre.len()]);
                        assert(arr_view(grows0[x - rows_pre.len()]) == arr_view(
                            groups@[gc as int],
                        ).row(x - rows_pre.len()));
                    }
                }
            }
            proof {
                assert(arr_view(groups@[gc as int]).row_count() == len);
                assert(unpartition_rows(rrv, gviews, ov, (j + 1) as nat) == Ok::<
                    (Seq<ArrView>, int, int),
                    UiuaError,
                >((pre.0 + all_rows(gviews[gc as int]), pre.1 + len, pre.2 + 1)));
                assert(grows0.len() == len);
                assert(rows_out@.len() == rows_pre.len() + len);
                assert forall|x: int| 0 <= x < rows_out@.len() implies (
                #[trigger] rows_out@[x]).wf() by {
                    if x < rows_pre.len() {
                        assert(rows_out@[x] == rows_pre[x]);
                    } else {
                        assert(rows_out@[x] == grows0[x - rows_pre.len()]);
                    }
                }
                lemma_unpartition_off(rrv, gviews, ov, (j + 1) as nat);
                lemma_runs_props(msv, n as nat);
                lemma_sum_lens_prefix(rrv, (j + 1) as int);
                assert(pre.1 + len <= n);
            }
            off = off + len;
            gc = gc + 1;
        } else {
            let ghost rows_pre = rows_out@;
            let mut x: usize = 0;
            proof {
                assert(unpartition_rows(rrv, gviews, ov, (j + 1) as nat) == Ok::<
                    (Seq<ArrView>, int, int),
                    UiuaError,
                >((pre.0 + Seq::new(len as nat, |z: int| ov.row(pre.1 + z)), pre.1 + len, pre.2)));
                lemma_unpartition_off(rrv, gviews, ov, (j + 1) as nat);
                lemma_runs_props(msv, n as nat);
                lemma_sum_lens_prefix(rrv, (j + 1) as int);
                assert(off + len <= n);
            }
            while x < len
                invariant
                    x <= len,
                    off + len <= n,
                    rows_out@.len() == rows_pre.len() + x,
                    forall|y: int| 0 <= y < rows_pre.len() ==> rows_out@[y] == rows_pre[y],
                    forall|y: int|
                        0 <= y < x ==> arr_view(#[trigger] rows_out@[rows_pre.len() + y])
                            == ov.row(off + y) && rows_out@[rows_pre.len() + y].wf(),
                decreases len - x,
            {
                let rowc = orows[off + x].duplicate();
                rows_out.push(rowc);
                x += 1;
            }
            proof {
                assert(pre.0.len() == rows_pre.len());
                assert forall|x2: int| 0 <= x2 < rows_out@.len() implies (
                #[trigger] rows_out@[x2]).wf() by {
                    if x2 < rows_pre.len() {
                        assert(rows_out@[x2] == rows_pre[x2]);
                    } else {
                        assert(rows_out@[rows_pre.len() + (x2 - rows_pre.len())].wf());
                    }
                }
                assert forall|y: int|
                    0 <= y < rows_out@.len() implies (pre.0 + Seq::new(
                    (len as nat),
                    |z: int| ov.row(off + z),
                ))[y] == arr_view(#[trigger] rows_out@[y]) by {
                    if y < rows_pre.len() {
                        assert(rows_out@[y] == rows_pre[y]);
                    } else {
                        let z = y - rows_pre.len();
                        assert(arr_view(rows_out@[rows_pre.len() + z]) == ov.row(off + z));
                        assert((pre.0 + Seq::new(len as nat, |z2: int| ov.row(off + z2)))[y]
                            == ov.row(off + z));
                    }
                }
            }
            off = off + len;
        }
        j += 1;
    }
    // stack the reconstructed rows
    proof {
        lemma_arr_views(rows_out@);
        assert forall|x: int| 0 <= x < rows_out@.len() implies (#[trigger] rows_out@[x]).wf() by {}
    }
    let ghost final_rows = unpartition_rows(rrv, gviews, ov, nr as nat)->Ok_0.0;
    let ghost rows_g = rows_out@;
    let val = match Array::from_row_values(rows_out) {
        Ok(v) => v,
        Err(_) => {
            proof {
                assert(!uniform_ok(final_rows)) by {
                    if uniform_ok(final_rows) {
                        assert forall|x: int| 0 <= x < rows_g.len() implies (#[trigger] arr_view(
                            rows_g[x],
                        )).kind == arr_view(rows_g[0]).kind && arr_view(rows_g[x]).shape
                            == arr_view(rows_g[0]).shape by {
                            assert(arr_view(rows_g[x]) == final_rows[x]);
                            assert(arr_view(rows_g[0]) == final_rows[0]);
                        }
                    }
                }
            }
            return Err(UiuaError::ShapeMismatch);
        },
    };
    proof {
        assert forall|x: int| 0 <= x < rows_g.len() implies arr_view(#[trigger] rows_g[x])
            == final_rows[x] by {}
        assert(uniform_ok(final_rows)) by {
            assert forall|x: int| 0 <= x < final_rows.len() implies (
            #[trigger] final_rows[x]).kind == final_rows[0].kind && final_rows[x].shape
                == final_rows[0].shape by {
                assert(final_rows[x] == arr_view(rows_g[x]));
                assert(final_rows[0] == arr_view(rows_g[0]));
            }
        }
        assert(arr_view(val) == rows_to_view(final_rows)) by {
            if rows_g.len() == 0 {
                assert(arr_view(val) =~= empty_group_view());
                assert(final_rows.len() == 0);
            } else {
                assert(arr_views(rows_g) =~= final_rows);
                assert(arr_view(val) =~= stacked(
                    final_rows,
                    final_rows[0].shape,
                    final_rows[0].kind,
                ));
            }
        }
    }
    env.push(val);
    Ok(())
}

/// Once reconstruction fails, later runs report the same failure.
pub proof fn lemma_unpartition_err(
    rs: Seq<(i64, int)>,
    groups: Seq<ArrView>,
    orig: ArrView,
    k1: nat,
    k2: nat,
)
    requires
        k1 <= k2,
        unpartition_rows(rs, groups, orig, k1) is Err,
    ensures
        unpartition_rows(rs, groups, orig, k2) == unpartition_rows(rs, groups, orig, k1),
    decreases k2,
{
    if k2 > k1 {
        lemma_unpartition_err(rs, groups, orig, k1, (k2 - 1) as nat);
    }
}

/// A prefix of runs is no longer than the whole.
pub proof fn lemma_sum_lens_prefix(rs: Seq<(i64, int)>, j: int)
    requires
        0 <= j <= rs.len(),
        forall|x: int| 0 <= x < rs.len() ==> (#[trigger] rs[x]).1 >= 1,
    ensures
        sum_lens(rs.subrange(0, j)) <= sum_lens(rs),
    decreases rs.len() - j,
{
    if j < rs.len() {
        lemma_sum_lens_prefix(rs, j + 1);
        assert(rs.subrange(0, j + 1).drop_last() =~= rs.subrange(0, j));
        assert(rs.subrange(0, j + 1).last() == rs[j]);
    } else {
        assert(rs.subrange(0, j) =~= rs);
    }
}

/// The offset after `j` runs is the total length of those runs.
pub proof fn lemma_unpartition_off(
    rs: Seq<(i64, int)>,
    groups: Seq<ArrView>,
    orig: ArrView,
    j: nat,
)
    requires
        unpartition_rows(rs, groups, orig, j) is Ok,
        j <= rs.len(),
    ensures
        unpartition_rows(rs, groups, orig, j)->Ok_0.1 == sum_lens(rs.subrange(0, j as int)),
    decreases j,
{
    if j > 0 {
        let prev = unpartition_rows(rs, groups, orig, (j - 1) as nat);
        assert(prev is Ok);
        lemma_unpartition_off(rs, groups, orig, (j - 1) as nat);
        assert(rs.subrange(0, j as int).drop_last() =~= rs.subrange(0, j - 1));
        assert(rs.subrange(0, j as int).last() == rs[j - 1]);
    }
}

/// Bounded repetition is exactly sequential application: zero calls
/// leave the stack unchanged, and `n + 1` calls are one call followed by
/// `n` more; equally, they are `n` calls followed by one more.
pub proof fn lemma_repeat_finite_steps(f: Function, n: nat, s: Seq<ArrView>)
    ensures
        repeat_finite(f, 0, s) == Ok::<Seq<ArrView>, UiuaError>(s),
        repeat_finite(f, (n + 1) as nat, s) == (match call_spec(f, s) {
            Ok(t) => repeat_finite(f, n, t),
            Err(e) => Err(e),
        }),
        (repeat_finite(f, n, s) matches Ok(t) ==> repeat_finite(f, (n + 1) as nat, s)
            == call_spec(f, t)),
    decreases n,
{
    if n > 0 {
        match call_spec(f, s) {
            Ok(t) => {
                lemma_repeat_finite_steps(f, (n - 1) as nat, t);
            },
            Err(_) => {},
        }
    }
}

} // verus!
