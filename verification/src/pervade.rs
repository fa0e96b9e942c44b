//! Pervasive binary operations: elementwise application with shape-prefix
//! broadcasting.
//!
//! An operation is defined only when one operand's shape is an
//! element-wise-equal prefix of the other's; the longer shape is the
//! result shape, and the shorter operand's flat storage is repeated
//! cyclically. Each operation carries a fixed table of the operand-kind
//! pairs it accepts.

use vstd::prelude::*;

use crate::array::{copy_shape, Array, ArrayType, Data};
use crate::error::UiuaError;
use crate::model::{
    arr_view, box_cells, cell_wf, cells_wf, char_cells, count, lemma_box_cells, lemma_cells_wf,
    lemma_char_cells, lemma_count_pos, lemma_flat_cells_wf, num_cells, prefix_compat, view_wf,
    ArrView, CellView,
};

verus! {

/// The elementwise binary operations of the engine.
#[derive(Clone, Copy, Debug, PartialEq, Eq, Structural)]
pub enum PervasiveOp {
    /// Addition (numbers wrap; a number offsets a character).
    Add,
    /// Subtraction (numbers wrap; a number offsets a character back).
    Sub,
    /// Multiplication (wrapping).
    Mul,
    /// Equality comparison, yielding 1 or 0.
    Eq,
    /// Inequality comparison, yielding 1 or 0.
    Ne,
    /// Strictly-less comparison, yielding 1 or 0.
    Lt,
    /// At-most comparison, yielding 1 or 0.
    Le,
    /// Strictly-greater comparison, yielding 1 or 0.
    Gt,
    /// At-least comparison, yielding 1 or 0.
    Ge,
}

/// Whether the operation is one of the six comparisons.
pub open spec fn is_cmp(op: PervasiveOp) -> bool {
    op is Eq || op is Ne || op is Lt || op is Le || op is Gt || op is Ge
}

/// The per-operation type table: which operand-kind pairs are defined,
/// and the result kind of each.
pub open spec fn table_kind(op: PervasiveOp, x: ArrayType, y: ArrayType) -> Option<ArrayType> {
    match (x, y) {
        (ArrayType::Num, ArrayType::Num) => Some(ArrayType::Num),
        (ArrayType::Num, ArrayType::Char) => if op is Add {
            Some(ArrayType::Char)
        } else {
            None
        },
        (ArrayType::Char, ArrayType::Num) => if op is Add || op is Sub {
            Some(ArrayType::Char)
        } else {
            None
        },
        (ArrayType::Char, ArrayType::Char) => if is_cmp(op) {
            Some(ArrayType::Num)
        } else {
            None
        },
        _ => None,
    }
}

/// A number applied to a number.
pub open spec fn num_op_spec(op: PervasiveOp, a: i64, b: i64) -> i64 {
    match op {
        PervasiveOp::Add => a.wrapping_add(b),
        PervasiveOp::Sub => a.wrapping_sub(b),
        PervasiveOp::Mul => a.wrapping_mul(b),
        PervasiveOp::Eq => if a == b { 1 } else { 0 },
        PervasiveOp::Ne => if a != b { 1 } else { 0 },
        PervasiveOp::Lt => if a < b { 1 } else { 0 },
        PervasiveOp::Le => if a <= b { 1 } else { 0 },
        PervasiveOp::Gt => if a > b { 1 } else { 0 },
        PervasiveOp::Ge => if a >= b { 1 } else { 0 },
    }
}

/// A character code offset by a number: the new code point, or 0 when the
/// result is no Unicode scalar value.
pub open spec fn char_add_code(c: u32, n: i64) -> u32 {
    let t = c + n;
    if 0 <= t && t <= 0x10FFFF && !(0xD800 <= t && t <= 0xDFFF) {
        t as u32
    } else {
        0
    }
}

/// A comparison of two character code points, yielding 1 or 0.
pub open spec fn cmp_code(op: PervasiveOp, a: u32, b: u32) -> i64 {
    match op {
        PervasiveOp::Eq => if a == b { 1 } else { 0 },
        PervasiveOp::Ne => if a != b { 1 } else { 0 },
        PervasiveOp::Lt => if a < b { 1 } else { 0 },
        PervasiveOp::Le => if a <= b { 1 } else { 0 },
        PervasiveOp::Gt => if a > b { 1 } else { 0 },
        PervasiveOp::Ge => if a >= b { 1 } else { 0 },
        _ => 0,
    }
}

/// One cell applied to another, for the pairs the tables admit.
pub open spec fn cell_op(op: PervasiveOp, x: CellView, y: CellView) -> CellView {
    match (x, y) {
        (CellView::N(a), CellView::N(b)) => CellView::N(num_op_spec(op, a, b)),
        (CellView::N(a), CellView::C(c)) => CellView::C(char_add_code(c, a)),
        (CellView::C(c), CellView::N(a)) => if op is Add {
            CellView::C(char_add_code(c, a))
        } else {
            CellView::C(char_sub_code(c, a))
        },
        (CellView::C(a), CellView::C(b)) => CellView::N(cmp_code(op, a, b)),
        _ => x,
    }
}

/// A character code with a number taken away: the new code point, or 0
/// when the result is no Unicode scalar value.
pub open spec fn char_sub_code(c: u32, n: i64) -> u32 {
    let t = c - n;
    if 0 <= t && t <= 0x10FFFF && !(0xD800 <= t && t <= 0xDFFF) {
        t as u32
    } else {
        0
    }
}

/// The nesting depth of one cell: how many levels of boxes it wraps.
pub open spec fn cell_depth(c: CellView) -> nat
    decreases c,
{
    match c {
        CellView::B(v) => 1 + cells_depth(v.cells),
        _ => 0,
    }
}

/// The largest nesting depth among a sequence of cells.
pub open spec fn cells_depth(s: Seq<CellView>) -> nat
    decreases s,
{
    if s.len() == 0 {
        0
    } else {
        let d = cell_depth(s.last());
        let r = cells_depth(s.drop_last());
        if d > r {
            d
        } else {
            r
        }
    }
}

/// No cell is deeper than the sequence holding it.
pub proof fn lemma_cells_depth_elem(s: Seq<CellView>, i: int)
    requires
        0 <= i < s.len(),
    ensures
        cell_depth(s[i]) <= cells_depth(s),
    decreases s,
{
    if i < s.len() - 1 {
        assert(s.drop_last()[i] == s[i]);
        lemma_cells_depth_elem(s.drop_last(), i);
    }
}

/// The cell of a model at flat position `i`, repeating the flat storage
/// cyclically; a model with no cells contributes a zero cell.
pub open spec fn cell_at(v: ArrView, i: int) -> CellView {
    if v.cells.len() == 0 {
        CellView::N(0)
    } else {
        v.cells[i % (v.cells.len() as int)]
    }
}

/// The kind of one cell alone.
pub open spec fn flat_kind(c: CellView) -> ArrayType {
    match c {
        CellView::N(_) => ArrayType::Num,
        CellView::C(_) => ArrayType::Char,
        CellView::B(_) => ArrayType::Value,
    }
}

/// The array a cell stands for when a pervasive operation unwraps it: a
/// boxed cell is the array inside the box, and a flat cell a scalar of
/// its own kind.
pub open spec fn cell_operand(c: CellView) -> ArrView {
    match c {
        CellView::B(v) => v,
        CellView::N(n) => ArrView {
            shape: Seq::empty(),
            kind: ArrayType::Num,
            cells: seq![CellView::N(n)],
        },
        CellView::C(ch) => ArrView {
            shape: Seq::empty(),
            kind: ArrayType::Char,
            cells: seq![CellView::C(ch)],
        },
    }
}

/// A flat cell stands for a scalar of depth 0, and a boxed cell for the
/// array inside, one level shallower.
pub proof fn lemma_cell_operand_depth(c: CellView)
    ensures
        c is B ==> cells_depth(cell_operand(c).cells) + 1 == cell_depth(c),
        !(c is B) ==> cells_depth(cell_operand(c).cells) == 0,
{
    if !(c is B) {
        let s = cell_operand(c).cells;
        assert(s.drop_last() =~= Seq::<CellView>::empty());
        assert(s.last() == c);
        assert(cells_depth(Seq::<CellView>::empty()) == 0);
        assert(cell_depth(c) == 0);
        assert(cells_depth(s) == 0);
    }
}

/// The first `n` result cells of a pervasive operation with a boxed
/// operand: each pair of operand cells (cyclically indexed) is
/// unwrapped, the operation applied recursively, and the result
/// rewrapped as a box; the first failing pair aborts.
#[verifier::opaque]
pub open spec fn boxed_cells(op: PervasiveOp, a: ArrView, b: ArrView, n: nat) -> Result<
    Seq<CellView>,
    UiuaError,
>
    decreases cells_depth(a.cells) + cells_depth(b.cells), 0int, n,
    via boxed_cells_dec
{
    if n == 0 {
        Ok(Seq::empty())
    } else {
        match boxed_cells(op, a, b, (n - 1) as nat) {
            Err(e) => Err(e),
            Ok(pre) => {
                let x = cell_at(a, n - 1);
                let y = cell_at(b, n - 1);
                if x is B || y is B {
                    match pervade_spec(op, cell_operand(x), cell_operand(y)) {
                        Ok(w) => Ok(pre.push(CellView::B(w))),
                        Err(e) => Err(e),
                    }
                } else {
                    match table_kind(op, flat_kind(x), flat_kind(y)) {
                        Some(_) => Ok(pre.push(cell_op(op, x, y))),
                        None => Err(UiuaError::TypeMismatch(flat_kind(x), flat_kind(y))),
                    }
                }
            },
        }
    }
}

#[via_fn]
proof fn boxed_cells_dec(op: PervasiveOp, a: ArrView, b: ArrView, n: nat) {
    if n > 0 {
        let x = cell_at(a, n - 1);
        let y = cell_at(b, n - 1);
        if a.cells.len() > 0 {
            lemma_cells_depth_elem(a.cells, (n - 1) % (a.cells.len() as int));
        }
        if b.cells.len() > 0 {
            lemma_cells_depth_elem(b.cells, (n - 1) % (b.cells.len() as int));
        }
        lemma_cell_operand_depth(x);
        lemma_cell_operand_depth(y);
    }
}

/// What a pervasive operation yields. With a boxed operand the shapes
/// must be prefix-compatible; the result takes the longer shape and is
/// boxed, each element the operation recursively applied to the
/// unwrapped operand cells, rewrapped as a box. On flat operands the
/// type table decides first, then the shapes must be prefix-compatible;
/// the result takes the longer shape, and element `i` is `op` of the
/// operands' cells at `i` modulo each one's length.
#[verifier::opaque]
pub open spec fn pervade_spec(op: PervasiveOp, a: ArrView, b: ArrView) -> Result<
    ArrView,
    UiuaError,
>
    decreases cells_depth(a.cells) + cells_depth(b.cells), 1int, 0nat,
{
    if a.kind is Value || b.kind is Value {
        if !prefix_compat(a.shape, b.shape) {
            Err(UiuaError::ShapeMismatch)
        } else {
            let rshape = if a.shape.len() >= b.shape.len() {
                a.shape
            } else {
                b.shape
            };
            match boxed_cells(op, a, b, count(rshape)) {
                Ok(cs) => Ok(ArrView { shape: rshape, kind: ArrayType::Value, cells: cs }),
                Err(e) => Err(e),
            }
        }
    } else {
        match table_kind(op, a.kind, b.kind) {
            None => Err(UiuaError::TypeMismatch(a.kind, b.kind)),
            Some(k) => {
                if !prefix_compat(a.shape, b.shape) {
                    Err(UiuaError::ShapeMismatch)
                } else {
                    let rshape = if a.shape.len() >= b.shape.len() {
                        a.shape
                    } else {
                        b.shape
                    };
                    Ok(
                        ArrView {
                            shape: rshape,
                            kind: k,
                            cells: Seq::new(
                                count(rshape),
                                |i: int|
                                    cell_op(
                                        op,
                                        a.cells[i % (a.cells.len() as int)],
                                        b.cells[i % (b.cells.len() as int)],
                                    ),
                            ),
                        },
                    )
                }
            },
        }
    }
}

/// Once a cell pair fails, every longer prefix reports the same failure.
pub proof fn lemma_boxed_cells_err(op: PervasiveOp, a: ArrView, b: ArrView, k1: nat, k2: nat)
    requires
        k1 <= k2,
        boxed_cells(op, a, b, k1) is Err,
    ensures
        boxed_cells(op, a, b, k2) == boxed_cells(op, a, b, k1),
    decreases k2,
{
    reveal_with_fuel(boxed_cells, 2);
    if k2 > k1 {
        lemma_boxed_cells_err(op, a, b, k1, (k2 - 1) as nat);
    }
}

/// Relies on char::from_u32: the value back as a character when it is a
/// Unicode scalar value, and nothing otherwise.
pub assume_specification[ char::from_u32 ](x: u32) -> (r: Option<char>)
    ensures
        (r is Some) <==> (x <= 0xD7FF || (0xE000 <= x && x <= 0x10FFFF)),
        r is Some ==> r->0 as u32 == x,
;

/// A number applied to a number.
fn num_cell(op: PervasiveOp, a: i64, b: i64) -> (r: i64)
    ensures
        r == num_op_spec(op, a, b),
{
    match op {
        PervasiveOp::Add => a.wrapping_add(b),
        PervasiveOp::Sub => a.wrapping_sub(b),
        PervasiveOp::Mul => a.wrapping_mul(b),
        PervasiveOp::Eq => if a == b { 1 } else { 0 },
        PervasiveOp::Ne => if a != b { 1 } else { 0 },
        PervasiveOp::Lt => if a < b { 1 } else { 0 },
        PervasiveOp::Le => if a <= b { 1 } else { 0 },
        PervasiveOp::Gt => if a > b { 1 } else { 0 },
        PervasiveOp::Ge => if a >= b { 1 } else { 0 },
    }
}

/// A character offset by a number, clamping invalid results to the nul
/// character.
fn char_offset(c: char, n: i64, forward: bool) -> (r: char)
    ensures
        forward ==> r as u32 == char_add_code(c as u32, n),
        !forward ==> r as u32 == char_sub_code(c as u32, n),
{
    let code = c as u32;
    if n < -0x1200000 || n > 0x1200000 {
        proof {
            vstd::utf8::char_is_scalar(c);
        }
        return '\0';
    }
    let t: i64 = if forward {
        code as i64 + n
    } else {
        code as i64 - n
    };
    proof {
        vstd::utf8::char_is_scalar(c);
    }
    if t < 0 || t > 0x10FFFF {
        return '\0';
    }
    match char::from_u32(t as u32) {
        Some(ch) => ch,
        None => '\0',
    }
}

/// A comparison of two characters by code point, yielding 1 or 0.
fn cmp_cell(op: PervasiveOp, a: char, b: char) -> (r: i64)
    ensures
        r == cmp_code(op, a as u32, b as u32),
{
    let x = a as u32;
    let y = b as u32;
    match op {
        PervasiveOp::Eq => if x == y { 1 } else { 0 },
        PervasiveOp::Ne => if x != y { 1 } else { 0 },
        PervasiveOp::Lt => if x < y { 1 } else { 0 },
        PervasiveOp::Le => if x <= y { 1 } else { 0 },
        PervasiveOp::Gt => if x > y { 1 } else { 0 },
        PervasiveOp::Ge => if x >= y { 1 } else { 0 },
        _ => 0,
    }
}

/// A prefix of a shape with a positive element count itself has a
/// positive element count.
proof fn lemma_shorter_pos(short: Seq<usize>, long: Seq<usize>)
    requires
        prefix_compat(short, long),
        short.len() <= long.len(),
        count(long) > 0,
    ensures
        count(short) > 0,
{
    lemma_count_pos(long);
    lemma_count_pos(short);
    assert forall|i: int| 0 <= i < short.len() implies short[i] > 0 by {
        assert(short[i] == long[i]);
    }
}

/// Applies a pervasive operation to two arrays, broadcasting by shape
/// prefix.
pub fn pervade(op: PervasiveOp, a: &Array, b: &Array) -> (r: Result<Array, UiuaError>)
    requires
        a.wf(),
        b.wf(),
    ensures
        match r {
            Ok(x) => {
                &&& pervade_spec(op, a@, arr_view(*b)) is Ok
                &&& arr_view(x) == pervade_spec(op, a@, arr_view(*b))->Ok_0
                &&& x.wf()
            },
            Err(e) => {
                &&& pervade_spec(op, a@, arr_view(*b)) is Err
                &&& e == pervade_spec(op, a@, arr_view(*b))->Err_0
            },
        },
    decreases cells_depth(a@.cells) + cells_depth(arr_view(*b).cells), 1int,
{
    proof {
        reveal_with_fuel(pervade_spec, 1);
    }
    let ghost av = a@;
    let ghost bv = arr_view(*b);
    let a_is_boxed = match &a.data {
        Data::Value(_) => true,
        _ => false,
    };
    let b_is_boxed = match &b.data {
        Data::Value(_) => true,
        _ => false,
    };
    if a_is_boxed || b_is_boxed {
        return pervade_boxed(op, a, b);
    }
    let k = match table_kind_exec(op, a.ty(), b.ty()) {
        Some(k) => k,
        None => {
            return Err(UiuaError::TypeMismatch(a.ty(), b.ty()));
        },
    };
    if !a.shape_prefix_matches(b) {
        return Err(UiuaError::ShapeMismatch);
    }
    let a_longer = a.shape().len() >= b.shape().len();
    let rshape = if a_longer {
        copy_shape(a.shape())
    } else {
        copy_shape(b.shape())
    };
    let n = if a_longer {
        a.element_count()
    } else {
        b.element_count()
    };
    let alen = a.element_count();
    let blen = b.element_count();
    proof {
        if n > 0 {
            if a_longer {
                lemma_shorter_pos(bv.shape, av.shape);
            } else {
                lemma_shorter_pos(av.shape, bv.shape);
            }
        }
    }
    let ghost rcells = Seq::new(
        count(rshape@),
        |i: int| cell_op(op, av.cells[i % (av.cells.len() as int)], bv.cells[i % (bv.cells.len() as int)]),
    );
    match (&a.data, &b.data) {
        (Data::Num(x), Data::Num(y)) => {
            let mut out: Vec<i64> = Vec::new();
            let mut i: usize = 0;
            while i < n
                invariant
                    i <= n,
                    out@.len() == i,
                    a.data == Data::Num(*x),
                    b.data == Data::Num(*y),
                    av == a@,
                    bv == arr_view(*b),
                    alen == av.cells.len(),
                    blen == bv.cells.len(),
                    alen == x@.len(),
                    blen == y@.len(),
                    n > 0 ==> alen > 0 && blen > 0,
                    forall|j: int|
                        0 <= j < i ==> CellView::N(#[trigger] out@[j]) == cell_op(
                            op,
                            av.cells[j % (alen as int)],
                            bv.cells[j % (blen as int)],
                        ),
                decreases n - i,
            {
                let c = num_cell(op, x[i % alen], y[i % blen]);
                proof {
                    assert(av.cells[(i as int) % (alen as int)] == CellView::N(
                        x@[(i as int) % (alen as int)],
                    ));
                    assert(bv.cells[(i as int) % (blen as int)] == CellView::N(
                        y@[(i as int) % (blen as int)],
                    ));
                }
                out.push(c);
                i += 1;
            }
            let arr = Array { shape: rshape, data: Data::Num(out) };
            proof {
                assert(arr_view(arr).cells =~= rcells);
                lemma_flat_cells_wf(arr_view(arr).cells);
                assert(arr_view(arr) =~= pervade_spec(op, av, bv)->Ok_0);
            }
            Ok(arr)
        },
        (Data::Num(x), Data::Char(y)) => {
            proof {
                lemma_char_cells(y@);
            }
            let mut out: Vec<char> = Vec::new();
            let mut i: usize = 0;
            while i < n
                invariant
                    i <= n,
                    out@.len() == i,
                    a.data == Data::Num(*x),
                    b.data == Data::Char(*y),
                    av == a@,
                    bv == arr_view(*b),
                    alen == av.cells.len(),
                    blen == bv.cells.len(),
                    alen == x@.len(),
                    blen == y@.len(),
                    n > 0 ==> alen > 0 && blen > 0,
                    forall|j: int|
                        0 <= j < i ==> CellView::C(#[trigger] out@[j] as u32) == cell_op(
                            op,
                            av.cells[j % (alen as int)],
                            bv.cells[j % (blen as int)],
                        ),
                decreases n - i,
            {
                let c = char_offset(y[i % blen], x[i % alen], true);
                proof {
                    lemma_char_cells(y@);
                    assert(av.cells[(i as int) % (alen as int)] == CellView::N(
                        x@[(i as int) % (alen as int)],
                    ));
                    assert(bv.cells[(i as int) % (blen as int)] == CellView::C(
                        y@[(i as int) % (blen as int)] as u32,
                    ));
                }
                out.push(c);
                i += 1;
            }
            let arr = Array { shape: rshape, data: Data::Char(out) };
            proof {
                lemma_char_cells(out@);
                assert(arr_view(arr).cells =~= rcells);
                lemma_flat_cells_wf(arr_view(arr).cells);
                assert(arr_view(arr) =~= pervade_spec(op, av, bv)->Ok_0);
            }
            Ok(arr)
        },
        (Data::Char(x), Data::Num(y)) => {
            proof {
                lemma_char_cells(x@);
            }
            let forward = match op {
                PervasiveOp::Add => true,
                _ => false,
            };
            let mut out: Vec<char> = Vec::new();
            let mut i: usize = 0;
            while i < n
                invariant
                    i <= n,
                    out@.len() == i,
                    a.data == Data::Char(*x),
                    b.data == Data::Num(*y),
                    av == a@,
                    bv == arr_view(*b),
                    alen == av.cells.len(),
                    blen == bv.cells.len(),
                    alen == x@.len(),
                    blen == y@.len(),
                    forward == (op is Add),
                    n > 0 ==> alen > 0 && blen > 0,
                    forall|j: int|
                        0 <= j < i ==> CellView::C(#[trigger] out@[j] as u32) == cell_op(
                            op,
                            av.cells[j % (alen as int)],
                            bv.cells[j % (blen as int)],
                        ),
                decreases n - i,
            {
                let c = char_offset(x[i % alen], y[i % blen], forward);
                proof {
                    lemma_char_cells(x@);
                    assert(av.cells[(i as int) % (alen as int)] == CellView::C(
                        x@[(i as int) % (alen as int)] as u32,
                    ));
                    assert(bv.cells[(i as int) % (blen as int)] == CellView::N(
                        y@[(i as int) % (blen as int)],
                    ));
                }
                out.push(c);
                i += 1;
            }
            let arr = Array { shape: rshape, data: Data::Char(out) };
            proof {
                lemma_char_cells(out@);
                assert(arr_view(arr).cells =~= rcells);
                lemma_flat_cells_wf(arr_view(arr).cells);
                assert(arr_view(arr) =~= pervade_spec(op, av, bv)->Ok_0);
            }
            Ok(arr)
        },
        (Data::Char(x), Data::Char(y)) => {
            proof {
                lemma_char_cells(x@);
                lemma_char_cells(y@);
            }
            let mut out: Vec<i64> = Vec::new();
            let mut i: usize = 0;
            while i < n
                invariant
                    i <= n,
                    out@.len() == i,
                    a.data == Data::Char(*x),
                    b.data == Data::Char(*y),
                    av == a@,
                    bv == arr_view(*b),
                    alen == av.cells.len(),
                    blen == bv.cells.len(),
                    alen == x@.len(),
                    blen == y@.len(),
                    n > 0 ==> alen > 0 && blen > 0,
                    forall|j: int|
                        0 <= j < i ==> CellView::N(#[trigger] out@[j]) == cell_op(
                            op,
                            av.cells[j % (alen as int)],
                            bv.cells[j % (blen as int)],
                        ),
                decreases n - i,
            {
                let c = cmp_cell(op, x[i % alen], y[i % blen]);
                proof {
                    lemma_char_cells(x@);
                    lemma_char_cells(y@);
                    assert(av.cells[(i as int) % (alen as int)] == CellView::C(
                        x@[(i as int) % (alen as int)] as u32,
                    ));
                    assert(bv.cells[(i as int) % (blen as int)] == CellView::C(
                        y@[(i as int) % (blen as int)] as u32,
                    ));
                }
                out.push(c);
                i += 1;
            }
            let arr = Array { shape: rshape, data: Data::Num(out) };
            proof {
                assert(arr_view(arr).cells =~= rcells);
                lemma_flat_cells_wf(arr_view(arr).cells);
                assert(arr_view(arr) =~= pervade_spec(op, av, bv)->Ok_0);
            }
            Ok(arr)
        },
        _ => {
            proof {
                assert(false);
            }
            Err(UiuaError::ShapeMismatch)
        },
    }
}

/// The boxed path of a pervasive operation: each pair of cyclically
/// indexed operand cells is unwrapped, the operation applied
/// recursively, and the result rewrapped as a box.
#[verifier::rlimit(100)]
#[verifier::spinoff_prover]
#[verifier::loop_isolation(false)]
fn pervade_boxed(op: PervasiveOp, a: &Array, b: &Array) -> (r: Result<Array, UiuaError>)
    requires
        a.wf(),
        b.wf(),
        a@.kind is Value || arr_view(*b).kind is Value,
    ensures
        match r {
            Ok(x) => {
                &&& pervade_spec(op, a@, arr_view(*b)) is Ok
                &&& arr_view(x) == pervade_spec(op, a@, arr_view(*b))->Ok_0
                &&& x.wf()
            },
            Err(e) => {
                &&& pervade_spec(op, a@, arr_view(*b)) is Err
                &&& e == pervade_spec(op, a@, arr_view(*b))->Err_0
            },
        },
    decreases cells_depth(a@.cells) + cells_depth(arr_view(*b).cells), 0int,
{
    proof {
        reveal_with_fuel(pervade_spec, 1);
    }
    let ghost av = a@;
    let ghost bv = arr_view(*b);
    if !a.shape_prefix_matches(b) {
        return Err(UiuaError::ShapeMismatch);
    }
    let a_longer = a.shape().len() >= b.shape().len();
    let rshape = if a_longer {
        copy_shape(a.shape())
    } else {
        copy_shape(b.shape())
    };
    let n = if a_longer {
        a.element_count()
    } else {
        b.element_count()
    };
    let alen = a.element_count();
    let blen = b.element_count();
    proof {
        if n > 0 {
            if a_longer {
                lemma_shorter_pos(bv.shape, av.shape);
            } else {
                lemma_shorter_pos(av.shape, bv.shape);
            }
        }
        assert(count(rshape@) == n);
        if av.kind is Value {
            lemma_box_cells(a.data->Value_0@);
        }
        if bv.kind is Value {
            lemma_box_cells(b.data->Value_0@);
        }
        lemma_cells_wf(av.cells);
        lemma_cells_wf(bv.cells);
        reveal_with_fuel(boxed_cells, 1);
        assert(boxed_cells(op, av, bv, 0) == Ok::<Seq<CellView>, UiuaError>(
            Seq::<CellView>::empty(),
        ));
        assert(box_cells(Seq::<Array>::empty()) =~= Seq::<CellView>::empty());
    }
    let mut out: Vec<Array> = Vec::new();
    let mut i: usize = 0;
    while i < n
        invariant
            i <= n,
            out@.len() == i,
            alen == av.cells.len(),
            blen == bv.cells.len(),
            n > 0 ==> alen > 0 && blen > 0,
            boxed_cells(op, av, bv, i as nat) == Ok::<Seq<CellView>, UiuaError>(
                box_cells(out@),
            ),
            forall|j: int| 0 <= j < out@.len() ==> (#[trigger] out@[j]).wf(),
        decreases n - i,
    {
        let ghost x = cell_at(av, i as int);
        let ghost y = cell_at(bv, i as int);
        proof {
            reveal_with_fuel(pervade_spec, 1);
            reveal_with_fuel(boxed_cells, 2);
            lemma_cells_depth_elem(av.cells, (i as int) % (alen as int));
            lemma_cells_depth_elem(bv.cells, (i as int) % (blen as int));
            lemma_cell_operand_depth(x);
            lemma_cell_operand_depth(y);
        }
        let xa: Array = match &a.data {
            Data::Num(v) => {
                proof {
                    assert(av.cells[(i as int) % (alen as int)] == CellView::N(
                        v@[(i as int) % (alen as int)],
                    ));
                }
                Array::from_num(v[i % alen])
            },
            Data::Char(v) => {
                proof {
                    lemma_char_cells(v@);
                }
                Array::from_char(v[i % alen])
            },
            Data::Value(v) => {
                proof {
                    lemma_box_cells(v@);
                    assert(av.cells[(i as int) % (alen as int)] == CellView::B(
                        arr_view(v@[(i as int) % (alen as int)]),
                    ));
                    assert(cell_wf(av.cells[(i as int) % (alen as int)]));
                }
                v[i % alen].duplicate()
            },
        };
        let ya: Array = match &b.data {
            Data::Num(v) => {
                proof {
                    assert(bv.cells[(i as int) % (blen as int)] == CellView::N(
                        v@[(i as int) % (blen as int)],
                    ));
                }
                Array::from_num(v[i % blen])
            },
            Data::Char(v) => {
                proof {
                    lemma_char_cells(v@);
                }
                Array::from_char(v[i % blen])
            },
            Data::Value(v) => {
                proof {
                    lemma_box_cells(v@);
                    assert(bv.cells[(i as int) % (blen as int)] == CellView::B(
                        arr_view(v@[(i as int) % (blen as int)]),
                    ));
                    assert(cell_wf(bv.cells[(i as int) % (blen as int)]));
                }
                v[i % blen].duplicate()
            },
        };
        proof {
            assert(arr_view(xa) == cell_operand(x) && xa.wf());
            assert(arr_view(ya) == cell_operand(y) && ya.wf());
            assert(x is B || y is B);
        }
        let w = match pervade(op, &xa, &ya) {
            Ok(w) => w,
            Err(e) => {
                proof {
                    assert(boxed_cells(op, av, bv, (i + 1) as nat) == Err::<
                        Seq<CellView>,
                        UiuaError,
                    >(e));
                    lemma_boxed_cells_err(op, av, bv, (i + 1) as nat, n as nat);
                }
                return Err(e);
            },
        };
        let ghost out_pre = out@;
        out.push(w);
        proof {
            lemma_box_cells(out_pre);
            lemma_box_cells(out@);
            assert(box_cells(out@) =~= box_cells(out_pre).push(CellView::B(arr_view(w))));
        }
        i += 1;
    }
    let ghost outs = out@;
    let arr = Array { shape: rshape, data: Data::Value(out) };
    proof {
        reveal_with_fuel(boxed_cells, 1);
        lemma_box_cells(outs);
        assert(arr_view(arr).cells == box_cells(outs));
        assert forall|j: int| 0 <= j < arr_view(arr).cells.len() implies cell_wf(
            #[trigger] arr_view(arr).cells[j],
        ) by {
            assert(arr_view(arr).cells[j] == CellView::B(arr_view(outs[j])));
        }
        lemma_cells_wf(arr_view(arr).cells);
        assert(view_wf(arr_view(arr)));
        assert(arr_view(arr) =~= pervade_spec(op, av, bv)->Ok_0);
    }
    Ok(arr)
}

/// The per-operation type table, as executable dispatch.
fn table_kind_exec(op: PervasiveOp, x: ArrayType, y: ArrayType) -> (r: Option<ArrayType>)
    ensures
        r == table_kind(op, x, y),
{
    let cmp = match op {
        PervasiveOp::Eq
        | PervasiveOp::Ne
        | PervasiveOp::Lt
        | PervasiveOp::Le
        | PervasiveOp::Gt
        | PervasiveOp::Ge => true,
        _ => false,
    };
    match (x, y) {
        (ArrayType::Num, ArrayType::Num) => Some(ArrayType::Num),
        (ArrayType::Num, ArrayType::Char) => {
            match op {
                PervasiveOp::Add => Some(ArrayType::Char),
                _ => None,
            }
        },
        (ArrayType::Char, ArrayType::Num) => {
            match op {
                PervasiveOp::Add | PervasiveOp::Sub => Some(ArrayType::Char),
                _ => None,
            }
        },
        (ArrayType::Char, ArrayType::Char) => {
            if cmp {
                Some(ArrayType::Num)
            } else {
                None
            }
        },
        _ => None,
    }
}

} // verus!
