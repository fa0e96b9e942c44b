//! The homogeneous, shape-tagged multidimensional container.
//!
//! An [`Array`] owns a shape and a contiguous row-major data buffer whose
//! length always equals the shape's element count. Storage is a tagged
//! union over the concrete element kinds: numbers, characters, and boxed
//! values (whole arrays stored as single elements, for heterogeneous rows).
//!
//! The mathematical model of an array is [`ArrView`]: a shape, a kind tag,
//! and a sequence of [`CellView`] cells, where a boxed cell carries the
//! model of the array inside it. All contracts in this crate speak of that
//! model.

use vstd::prelude::*;

use crate::error::UiuaError;
use crate::model::{
    all_box_scalars_of, arr_view, arr_views, box_cells, box_is_scalar_of, cell_is_kind, cell_wf,
    cells_wf, char_cells, concat_rows, count, data_cells, data_kind, lemma_arr_views,
    lemma_box_cells, lemma_cells_wf, lemma_char_cells, lemma_concat_rows_uniform,
    lemma_count_pos, lemma_count_split, lemma_data_cells_kind, lemma_flat_cells_wf, lemma_row_wf,
    normalize_view, num_cells,
    rows_uniform, stacked, unbox_scalar_cells, view_wf, ArrView, CellView,
};

verus! {

/// The element kind of an array: numbers, characters, or boxed values.
#[derive(Clone, Copy, Debug, PartialEq, Eq, Structural)]
pub enum ArrayType {
    /// 64-bit integer numbers.
    Num,
    /// Unicode characters.
    Char,
    /// Boxed values: each element is a whole array of arbitrary shape and kind.
    Value,
}

/// The storage of an array: exactly one buffer is live, selected by kind.
pub enum Data {
    /// Number storage.
    Num(Vec<i64>),
    /// Character storage.
    Char(Vec<char>),
    /// Boxed-value storage.
    Value(Vec<Array>),
}

/// A homogeneous multidimensional array: a shape and a flat row-major
/// data buffer with `data.len() == count(shape)`.
pub struct Array {
    /// The dimension sizes, outermost first.
    pub shape: Vec<usize>,
    /// The flat row-major element buffer.
    pub data: Data,
}

impl Array {
    /// Well-formedness: the data length matches the shape's element count,
    /// recursively through boxed elements.
    pub open spec fn wf(self) -> bool {
        view_wf(self@)
    }

    /// The rank of the array.
    pub fn rank(&self) -> (r: usize)
        ensures
            r == self@.rank(),
    {
        self.shape.len()
    }

    /// The outermost dimension, or 0 for a scalar.
    pub fn len(&self) -> (r: usize)
        ensures
            r == if self@.rank() == 0 {
                0
            } else {
                self@.shape[0]
            },
    {
        if self.shape.len() == 0 {
            0
        } else {
            self.shape[0]
        }
    }

    /// Whether the outermost dimension is 0.
    pub fn is_empty(&self) -> (r: bool)
        ensures
            r == (self@.rank() != 0 && self@.shape[0] == 0),
    {
        self.len() == 0 && self.rank() != 0
    }

    /// The number of rows: the outermost dimension, 1 for a scalar.
    pub fn row_count(&self) -> (r: usize)
        ensures
            r == self@.row_count(),
    {
        if self.shape.len() == 0 {
            1
        } else {
            self.shape[0]
        }
    }

    /// The shape.
    pub fn shape(&self) -> (r: &Vec<usize>)
        ensures
            r@ == self@.shape,
    {
        &self.shape
    }

    /// The element kind.
    pub fn ty(&self) -> (r: ArrayType)
        ensures
            r == self@.kind,
    {
        match &self.data {
            Data::Num(_) => ArrayType::Num,
            Data::Char(_) => ArrayType::Char,
            Data::Value(_) => ArrayType::Value,
        }
    }

    /// The total element count.
    pub fn element_count(&self) -> (r: usize)
        requires
            self.wf(),
        ensures
            r == count(self@.shape),
            r == self@.cells.len(),
    {
        match &self.data {
            Data::Num(v) => {
                proof {
                    assert(self@.cells == num_cells(v@));
                }
                v.len()
            },
            Data::Char(v) => {
                proof {
                    crate::model::lemma_char_cells(v@);
                    assert(self@.cells == char_cells(v@));
                }
                v.len()
            },
            Data::Value(v) => {
                proof {
                    assert(self@.cells == box_cells(v@));
                    lemma_box_cells(v@);
                }
                v.len()
            },
        }
    }

    /// A scalar number array.
    pub fn from_num(n: i64) -> (r: Array)
        ensures
            r@ == (ArrView {
                shape: Seq::<usize>::empty(),
                kind: ArrayType::Num,
                cells: seq![CellView::N(n)],
            }),
            r.wf(),
    {
        let mut buf: Vec<i64> = Vec::new();
        buf.push(n);
        let r = Array { shape: Vec::new(), data: Data::Num(buf) };
        proof {
            assert(r@.cells =~= seq![CellView::N(n)]);
            assert(r@.shape =~= Seq::<usize>::empty());
            lemma_flat_cells_wf(r@.cells);
        }
        r
    }

    /// A scalar character array.
    pub fn from_char(c: char) -> (r: Array)
        ensures
            r@ == (ArrView {
                shape: Seq::<usize>::empty(),
                kind: ArrayType::Char,
                cells: seq![CellView::C(c as u32)],
            }),
            r.wf(),
    {
        let mut buf: Vec<char> = Vec::new();
        buf.push(c);
        let r = Array { shape: Vec::new(), data: Data::Char(buf) };
        proof {
            crate::model::lemma_char_cells(buf@);
            assert(r@.cells.len() == 1);
            assert(r@.cells[0] == CellView::C(c as u32));
            assert(r@.cells =~= seq![CellView::C(c as u32)]);
            assert(r@.shape =~= Seq::<usize>::empty());
            lemma_flat_cells_wf(r@.cells);
        }
        r
    }

    /// A rank-1 number array from a flat buffer.
    pub fn from_nums(v: Vec<i64>) -> (r: Array)
        ensures
            r@ == (ArrView { shape: seq![v@.len() as usize], kind: ArrayType::Num, cells: num_cells(v@) }),
            r.wf(),
    {
        let n = v.len();
        let mut shape: Vec<usize> = Vec::new();
        shape.push(n);
        let r = Array { shape, data: Data::Num(v) };
        proof {
            assert(r@.shape =~= seq![n]);
            assert(r@.shape.drop_first() =~= Seq::<usize>::empty());
            assert(count(Seq::<usize>::empty()) == 1);
            lemma_flat_cells_wf(r@.cells);
        }
        r
    }

    /// A rank-1 character array from a flat buffer.
    #[verifier::spinoff_prover]
    pub fn from_chars(v: Vec<char>) -> (r: Array)
        ensures
            r@ == (ArrView { shape: seq![v@.len() as usize], kind: ArrayType::Char, cells: char_cells(v@) }),
            r.wf(),
    {
        let n = v.len();
        let ghost gv = v@;
        let mut shape: Vec<usize> = Vec::new();
        shape.push(n);
        let r = Array { shape, data: Data::Char(v) };
        proof {
            crate::model::lemma_char_cells(gv);
            assert(r@.cells == char_cells(gv));
            assert(r@.shape =~= seq![n as usize]);
            assert(r@.shape.drop_first() =~= Seq::<usize>::empty());
            assert(count(Seq::<usize>::empty()) == 1);
            lemma_flat_cells_wf(r@.cells);
            assert(r@ =~= (ArrView {
                shape: seq![n as usize],
                kind: ArrayType::Char,
                cells: char_cells(gv),
            }));
        }
        r
    }
}

/// Copies a shape buffer.
pub(crate) fn copy_shape(s: &Vec<usize>) -> (r: Vec<usize>)
    ensures
        r@ == s@,
{
    let mut r: Vec<usize> = Vec::new();
    let mut i: usize = 0;
    while i < s.len()
        invariant
            i <= s.len(),
            r@.len() == i,
            forall|j: int| 0 <= j < i ==> r@[j] == s@[j],
        decreases s.len() - i,
    {
        r.push(s[i]);
        i += 1;
    }
    proof {
        assert(r@ =~= s@);
    }
    r
}

/// The length of a storage buffer.
fn data_len(d: &Data) -> (r: usize)
    ensures
        r == data_cells(*d).len(),
{
    match d {
        Data::Num(v) => v.len(),
        Data::Char(v) => {
            proof {
                lemma_char_cells(v@);
            }
            v.len()
        },
        Data::Value(v) => {
            proof {
                lemma_box_cells(v@);
            }
            v.len()
        },
    }
}

/// Splits the last `rl` cells off a storage buffer, keeping the kind.
fn split_tail(d: &mut Data, rl: usize) -> (r: Data)
    requires
        rl <= data_cells(*old(d)).len(),
    ensures
        data_kind(*final(d)) == data_kind(*old(d)),
        data_kind(r) == data_kind(*old(d)),
        data_cells(*final(d)) == data_cells(*old(d)).subrange(
            0,
            data_cells(*old(d)).len() - rl,
        ),
        data_cells(r) == data_cells(*old(d)).subrange(
            data_cells(*old(d)).len() - rl,
            data_cells(*old(d)).len() as int,
        ),
{
    let ghost all = data_cells(*d);
    match d {
        Data::Num(v) => {
            let at = v.len() - rl;
            let chunk = v.split_off(at);
            proof {
                assert(num_cells(v@) =~= all.subrange(0, all.len() - rl));
                assert(num_cells(chunk@) =~= all.subrange(all.len() - rl, all.len() as int));
            }
            Data::Num(chunk)
        },
        Data::Char(v) => {
            proof {
                lemma_char_cells(v@);
            }
            let at = v.len() - rl;
            let chunk = v.split_off(at);
            proof {
                lemma_char_cells(v@);
                lemma_char_cells(chunk@);
                assert(char_cells(v@) =~= all.subrange(0, all.len() - rl));
                assert(char_cells(chunk@) =~= all.subrange(all.len() - rl, all.len() as int));
            }
            Data::Char(chunk)
        },
        Data::Value(v) => {
            proof {
                lemma_box_cells(v@);
            }
            let at = v.len() - rl;
            let chunk = v.split_off(at);
            proof {
                lemma_box_cells(v@);
                lemma_box_cells(chunk@);
                assert(box_cells(v@) =~= all.subrange(0, all.len() - rl));
                assert(box_cells(chunk@) =~= all.subrange(all.len() - rl, all.len() as int));
            }
            Data::Value(chunk)
        },
    }
}

/// Appends the cells of `src` to `dst`, which must hold the same kind.
fn append_data(dst: &mut Data, src: Data)
    requires
        data_kind(*old(dst)) == data_kind(src),
    ensures
        data_kind(*final(dst)) == data_kind(*old(dst)),
        data_cells(*final(dst)) == data_cells(*old(dst)) + data_cells(src),
{
    let ghost a = data_cells(*dst);
    let ghost b = data_cells(src);
    match dst {
        Data::Num(v) => {
            let mut s = match src {
                Data::Num(s) => s,
                _ => Vec::new(),
            };
            v.append(&mut s);
            proof {
                assert(num_cells(v@) =~= a + b);
            }
        },
        Data::Char(v) => {
            let mut s = match src {
                Data::Char(s) => s,
                _ => Vec::new(),
            };
            proof {
                lemma_char_cells(v@);
                lemma_char_cells(s@);
            }
            v.append(&mut s);
            proof {
                lemma_char_cells(v@);
                assert(char_cells(v@) =~= a + b);
            }
        },
        Data::Value(v) => {
            let mut s = match src {
                Data::Value(s) => s,
                _ => Vec::new(),
            };
            proof {
                lemma_box_cells(v@);
                lemma_box_cells(s@);
            }
            v.append(&mut s);
            proof {
                lemma_box_cells(v@);
                assert(box_cells(v@) =~= a + b);
            }
        },
    }
}

impl Array {
    /// The shape of one row, as a fresh buffer.
    fn row_shape_vec(&self) -> (r: Vec<usize>)
        ensures
            r@ == self@.row_shape(),
    {
        let mut r: Vec<usize> = Vec::new();
        let mut i: usize = if self.shape.len() == 0 {
            0
        } else {
            1
        };
        let ghost start = i as int;
        while i < self.shape.len()
            invariant
                start <= i <= self.shape.len(),
                start == if self.shape.len() == 0 { 0int } else { 1int },
                r@.len() == i - start,
            forall|j: int| 0 <= j < i - start ==> r@[j] == self.shape@[start + j],
            decreases self.shape.len() - i,
        {
            r.push(self.shape[i]);
            i += 1;
        }
        proof {
            assert(r@ =~= self@.row_shape());
        }
        r
    }

    /// Takes the array apart into its rows, consuming it. A scalar yields
    /// itself as its single row.
    pub fn into_rows(self) -> (rows: Vec<Array>)
        requires
            self.wf(),
        ensures
            rows@.len() == self@.row_count(),
            forall|i: int| 0 <= i < rows@.len() ==> arr_view(#[trigger] rows@[i]) == self@.row(i),
            forall|i: int| 0 <= i < rows@.len() ==> (#[trigger] rows@[i]).wf(),
    {
        let ghost v0 = self@;
        if self.shape.len() == 0 {
            let mut rows: Vec<Array> = Vec::new();
            rows.push(self);
            return rows;
        }
        let rshape = self.row_shape_vec();
        let rc = self.shape[0];
        let Array { shape: _, data: mut data } = self;
        let total = data_len(&data);
        proof {
            assert(v0.shape.drop_first() =~= v0.row_shape());
            assert(total == v0.row_count() * v0.row_len());
        }
        let rl = if rc == 0 {
            0
        } else {
            let q = total / rc;
            proof {
                assert((rc * v0.row_len()) as int / (rc as int) == v0.row_len()) by (nonlinear_arith)
                    requires rc > 0,
                ;
            }
            q
        };
        proof {
            assert(rc > 0 ==> rl == v0.row_len());
            if rc == 0 {
                assert(total == 0) by (nonlinear_arith)
                    requires total == v0.row_count() * v0.row_len(), v0.row_count() == 0,
                ;
                assert(data_cells(data) =~= v0.cells.subrange(0, 0));
            } else {
                assert(v0.cells.len() == (rc as int) * (rl as int)) by (nonlinear_arith)
                    requires
                        v0.cells.len() == v0.row_count() * v0.row_len(),
                        rc == v0.row_count(),
                        rl == v0.row_len(),
                ;
                assert(data_cells(data) =~= v0.cells.subrange(0, (rc as int) * (rl as int)));
            }
        }
        let mut rev: Vec<Array> = Vec::new();
        let mut k: usize = 0;
        while k < rc
            invariant
                k <= rc,
                view_wf(v0),
                v0.rank() >= 1,
                rc == v0.row_count(),
                rc > 0 ==> rl == v0.row_len(),
                data_kind(data) == v0.kind,
                data_cells(data) == v0.cells.subrange(0, (rc - k) * (rl as int)),
                rshape@ == v0.row_shape(),
                rev@.len() == k,
                forall|j: int|
                    0 <= j < k ==> arr_view(#[trigger] rev@[j]) == v0.row(rc - 1 - j),
                forall|j: int| 0 <= j < k ==> (#[trigger] rev@[j]).wf(),
            decreases rc - k,
        {
            let ghost i = rc - k - 1;
            proof {
                lemma_row_wf(v0, i);
                assert((rc - k) * (rl as int) == i * (rl as int) + rl) by (nonlinear_arith)
                    requires i == rc - k - 1, 0 <= i,
                ;
                assert(i * (rl as int) + rl <= v0.cells.len()) by {
                    assert(i * (rl as int) + rl <= (rc as int) * (rl as int)) by (nonlinear_arith)
                        requires 0 <= i < rc as int, rl >= 0,
                    ;
                    assert(v0.cells.len() == rc * (rl as int)) by (nonlinear_arith)
                        requires v0.cells.len() == v0.row_count() * v0.row_len(), rc == v0.row_count(), rl == v0.row_len(),
                    ;
                }
            }
            let chunk = split_tail(&mut data, rl);
            let rowshape = copy_shape(&rshape);
            let row = Array { shape: rowshape, data: chunk };
            proof {
                assert(arr_view(row).cells =~= v0.cells.subrange(
                    i * (rl as int),
                    (i + 1) * (rl as int),
                )) by {
                    assert((i + 1) * (rl as int) == i * (rl as int) + rl) by (nonlinear_arith);
                }
                assert(arr_view(row) =~= v0.row(i));
                assert(data_cells(data) =~= v0.cells.subrange(0, (rc - (k + 1)) * (rl as int)));
            }
            rev.push(row);
            k += 1;
        }
        let ghost rev0 = rev@;
        let mut rows: Vec<Array> = Vec::new();
        while rev.len() > 0
            invariant
                rows@.len() + rev@.len() == rc,
                rev@ == rev0.subrange(0, rev@.len() as int),
                rev0.len() == rc,
                forall|i: int| 0 <= i < rows@.len() ==> rows@[i] == rev0[rc - 1 - i],
            decreases rev.len(),
        {
            let r = rev.pop().unwrap();
            proof {
                assert(rev0.subrange(0, rev0.len() as int) =~= rev0);
            }
            rows.push(r);
            proof {
                assert(rev@ =~= rev0.subrange(0, rev@.len() as int));
            }
        }
        proof {
            assert forall|i: int| 0 <= i < rows@.len() implies arr_view(#[trigger] rows@[i])
                == v0.row(i) && rows@[i].wf() by {
                assert(rows@[i] == rev0[rc - 1 - i]);
            }
        }
        rows
    }

    /// Stacks rows into one array with one row per entry: the result's
    /// shape is the row count followed by the common row shape. All rows
    /// must share one kind and one shape; otherwise the stacking is a
    /// shape mismatch. No rows yield an empty number list.
    pub fn from_row_values(rows: Vec<Array>) -> (r: Result<Array, UiuaError>)
        requires
            forall|i: int| 0 <= i < rows@.len() ==> (#[trigger] rows@[i]).wf(),
        ensures
            match r {
                Ok(a) => {
                    &&& rows_uniform(rows@)
                    &&& a.wf()
                    &&& rows@.len() == 0 ==> a@ == (ArrView {
                        shape: seq![0usize],
                        kind: ArrayType::Num,
                        cells: Seq::<CellView>::empty(),
                    })
                    &&& rows@.len() > 0 ==> a@ == stacked(
                        arr_views(rows@),
                        arr_view(rows@[0]).shape,
                        arr_view(rows@[0]).kind,
                    )
                },
                Err(e) => e == UiuaError::ShapeMismatch && !rows_uniform(rows@),
            },
    {
        let ghost rows0 = rows@;
        let n = rows.len();
        if n == 0 {
            let a = Array::from_nums(Vec::new());
            proof {
                assert(a@.cells =~= Seq::<CellView>::empty());
                assert(a@.shape =~= seq![0usize]);
            }
            return Ok(a);
        }
        let mut i: usize = 1;
        while i < n
            invariant
                1 <= i <= n,
                n == rows@.len(),
                rows@ == rows0,
                forall|j: int|
                    0 <= j < i ==> (#[trigger] arr_view(rows@[j])).kind == arr_view(
                        rows@[0],
                    ).kind && arr_view(rows@[j]).shape == arr_view(rows@[0]).shape,
            decreases n - i,
        {
            let same_kind = rows[i].ty() == rows[0].ty();
            let same_shape = shapes_equal(&rows[i].shape, &rows[0].shape);
            if !same_kind || !same_shape {
                return Err(UiuaError::ShapeMismatch);
            }
            i += 1;
        }
        let ghost rs = arr_view(rows0[0]).shape;
        let ghost k0 = arr_view(rows0[0]).kind;
        let ghost rl = count(rs);
        // reverse so rows can be consumed front to back
        let mut rev: Vec<Array> = Vec::new();
        let mut rows = rows;
        while rows.len() > 0
            invariant
                rows@.len() + rev@.len() == n,
                rows@ == rows0.subrange(0, rows@.len() as int),
                rows0.len() == n,
                forall|j: int| 0 <= j < rev@.len() ==> rev@[j] == rows0[n - 1 - j],
            decreases rows.len(),
        {
            let r = rows.pop().unwrap();
            proof {
                assert(rows0.subrange(0, rows0.len() as int) =~= rows0);
            }
            rev.push(r);
            proof {
                assert(rows@ =~= rows0.subrange(0, rows@.len() as int));
            }
        }
        let ghost revpre = rev@;
        let first = rev.pop().unwrap();
        proof {
            assert(first == revpre[n - 1]);
            assert(first == rows0[0]);
        }
        let Array { shape: first_shape, data: mut out } = first;
        proof {
            let s1 = arr_views(rows0.subrange(0, 1));
            lemma_arr_views(rows0.subrange(0, 1));
            assert(s1.len() == 1);
            assert(s1.last() == arr_view(rows0[0]));
            assert(concat_rows(s1.drop_last()) =~= Seq::<CellView>::empty()) by {
                assert(s1.drop_last().len() == 0);
            }
            assert(concat_rows(s1) =~= arr_view(rows0[0]).cells);
            assert(data_cells(out) == arr_view(rows0[0]).cells);
        }
        let mut consumed: usize = 1;
        while rev.len() > 0
            invariant
                1 <= consumed <= n,
                consumed + rev.len() == n,
                rows0.len() == n,
                forall|j: int| 0 <= j < rev@.len() ==> rev@[j] == rows0[n - 1 - j],
                forall|j: int|
                    0 <= j < n ==> (#[trigger] arr_view(rows0[j])).kind == k0 && arr_view(
                        rows0[j],
                    ).shape == rs,
                forall|j: int| 0 <= j < n ==> (#[trigger] rows0[j]).wf(),
                data_kind(out) == k0,
                data_cells(out) == concat_rows(arr_views(rows0.subrange(0, consumed as int))),
            decreases rev.len(),
        {
            let row = rev.pop().unwrap();
            proof {
                assert(row == rows0[consumed as int]);
            }
            let Array { shape: _, data: rdata } = row;
            proof {
                let pre = arr_views(rows0.subrange(0, consumed as int));
                let post = arr_views(rows0.subrange(0, consumed + 1));
                lemma_arr_views(rows0.subrange(0, consumed as int));
                lemma_arr_views(rows0.subrange(0, consumed + 1));
                assert(post.drop_last() =~= pre);
                assert(post.last() == arr_view(rows0[consumed as int]));
                assert(concat_rows(post) == concat_rows(pre) + arr_view(
                    rows0[consumed as int],
                ).cells);
            }
            append_data(&mut out, rdata);
            consumed += 1;
        }
        proof {
            assert(rows0.subrange(0, n as int) =~= rows0);
        }
        let mut shape: Vec<usize> = Vec::new();
        shape.push(n);
        let mut tail = first_shape;
        shape.append(&mut tail);
        let a = Array { shape, data: out };
        proof {
            lemma_arr_views(rows0);
            let vs = arr_views(rows0);
            assert forall|j: int| 0 <= j < vs.len() implies (#[trigger] vs[j]).cells.len() == rl by {
                assert(vs[j] == arr_view(rows0[j]));
            }
            lemma_concat_rows_uniform(vs, rl);
            assert(vs.len() == n);
            assert(a@.cells == concat_rows(vs));
            assert(a@.cells.len() == n * rl);
            assert(a@.shape =~= seq![n as usize].add(rs));
            assert(a@ =~= stacked(arr_views(rows0), rs, k0));
            // well-formedness
            assert(a@.cells.len() == count(a@.shape)) by {
                assert(a@.shape.drop_first() =~= rs);
                assert(a@.cells.len() == n * rl);
            }
            assert forall|j: int| 0 <= j < a@.cells.len() implies cell_is_kind(
                #[trigger] a@.cells[j],
                a@.kind,
            ) && cell_wf(a@.cells[j]) by {
                let q = j / (rl as int);
                let rm = j % (rl as int);
                assert(rl > 0) by (nonlinear_arith)
                    requires a@.cells.len() == n * rl, j < a@.cells.len(), 0 <= j,
                ;
                assert(0 <= q < n && 0 <= rm < rl && j == q * (rl as int) + rm) by (nonlinear_arith)
                    requires rl > 0, 0 <= j < n * rl, q == j / (rl as int), rm == j % (rl as int),
                ;
                assert(vs[q] == arr_view(rows0[q]));
                assert(vs[q].cells.len() == rl);
                assert(0 <= q * (rl as int) && q * (rl as int) + rl <= n * rl) by (nonlinear_arith)
                    requires 0 <= q < n, rl > 0,
                ;
                let sub = concat_rows(vs).subrange(q * (rl as int), q * (rl as int) + rl);
                assert(sub == vs[q].cells);
                assert(sub[rm] == concat_rows(vs)[q * (rl as int) + rm]);
                assert(a@.cells[j] == concat_rows(vs)[j]);
                assert(a@.cells[j] == vs[q].cells[rm]);
                assert(view_wf(arr_view(rows0[q])));
                lemma_cells_wf(arr_view(rows0[q]).cells);
            }
            lemma_cells_wf(a@.cells);
        }
        Ok(a)
    }
}

/// Whether two shape buffers hold the same dimensions.
fn shapes_equal(a: &Vec<usize>, b: &Vec<usize>) -> (r: bool)
    ensures
        r == (a@ == b@),
{
    if a.len() != b.len() {
        return false;
    }
    let mut i: usize = 0;
    while i < a.len()
        invariant
            i <= a.len(),
            a@.len() == b@.len(),
            forall|j: int| 0 <= j < i ==> a@[j] == b@[j],
        decreases a.len() - i,
    {
        if a[i] != b[i] {
            return false;
        }
        i += 1;
    }
    proof {
        assert(a@ =~= b@);
    }
    true
}

impl Array {
    /// A deep copy: the copy's model equals the original's.
    pub fn duplicate(&self) -> (r: Array)
        ensures
            arr_view(r) == self@,
        decreases *self,
    {
        let shape = copy_shape(&self.shape);
        match &self.data {
            Data::Num(v) => {
                let mut buf: Vec<i64> = Vec::new();
                let mut i: usize = 0;
                while i < v.len()
                    invariant
                        i <= v@.len(),
                        buf@.len() == i,
                        forall|j: int| 0 <= j < i ==> buf@[j] == v@[j],
                    decreases v@.len() - i,
                {
                    buf.push(v[i]);
                    i += 1;
                }
                let r = Array { shape, data: Data::Num(buf) };
                proof {
                    assert(buf@ =~= v@);
                    assert(arr_view(r) =~= self@);
                }
                r
            },
            Data::Char(v) => {
                let mut buf: Vec<char> = Vec::new();
                let mut i: usize = 0;
                while i < v.len()
                    invariant
                        i <= v@.len(),
                        buf@.len() == i,
                        forall|j: int| 0 <= j < i ==> buf@[j] == v@[j],
                    decreases v@.len() - i,
                {
                    buf.push(v[i]);
                    i += 1;
                }
                let r = Array { shape, data: Data::Char(buf) };
                proof {
                    assert(buf@ =~= v@);
                    assert(arr_view(r) =~= self@);
                }
                r
            },
            Data::Value(v) => {
                let mut buf: Vec<Array> = Vec::new();
                let mut i: usize = 0;
                while i < v.len()
                    invariant
                        i <= v@.len(),
                        buf@.len() == i,
                        self.data == Data::Value(*v),
                        forall|j: int|
                            0 <= j < i ==> arr_view(#[trigger] buf@[j]) == arr_view(v@[j]),
                    decreases v@.len() - i,
                {
                    proof {
                        assert(decreases_to!(self.data => self.data->Value_0));
                        assert(self.data->Value_0 == *v);
                        assert(decreases_to!(*v => v@));
                        assert(decreases_to!(v@ => v@[i as int]));
                    }
                    let d = v[i].duplicate();
                    buf.push(d);
                    i += 1;
                }
                let r = Array { shape, data: Data::Value(buf) };
                proof {
                    lemma_box_cells(buf@);
                    lemma_box_cells(v@);
                    assert(box_cells(buf@) =~= box_cells(v@));
                    assert(arr_view(r) =~= self@);
                }
                r
            },
        }
    }

    /// Structural equality of models: two arrays are equal exactly when
    /// their shapes, kinds, and cells agree, recursively through boxes.
    pub fn array_eq(&self, other: &Array) -> (r: bool)
        ensures
            r == (self@ == arr_view(*other)),
        decreases *self,
    {
        if !shapes_equal(&self.shape, &other.shape) {
            proof {
                assert(self@.shape == self.shape@);
                assert(arr_view(*other).shape == other.shape@);
                assert(self@.shape != arr_view(*other).shape);
            }
            return false;
        }
        match (&self.data, &other.data) {
            (Data::Num(x), Data::Num(y)) => {
                proof {
                    assert(self.data == Data::Num(*x));
                    assert(other.data == Data::Num(*y));
                }
                if x.len() != y.len() {
                    proof {
                        assert(self@.cells.len() == x@.len());
                        assert(arr_view(*other).cells.len() == y@.len());
                    }
                    return false;
                }
                let mut i: usize = 0;
                while i < x.len()
                    invariant
                        i <= x@.len(),
                        x@.len() == y@.len(),
                        self.data == Data::Num(*x),
                        other.data == Data::Num(*y),
                        forall|j: int| 0 <= j < i ==> x@[j] == y@[j],
                    decreases x@.len() - i,
                {
                    if x[i] != y[i] {
                        proof {
                            assert(self@.cells[i as int] != arr_view(*other).cells[i as int]);
                        }
                        return false;
                    }
                    i += 1;
                }
                proof {
                    assert(x@ =~= y@);
                    assert(self@ =~= arr_view(*other));
                }
                true
            },
            (Data::Char(x), Data::Char(y)) => {
                proof {
                    assert(self.data == Data::Char(*x));
                    assert(other.data == Data::Char(*y));
                    lemma_char_cells(x@);
                    lemma_char_cells(y@);
                }
                if x.len() != y.len() {
                    proof {
                        assert(self@.cells.len() == x@.len());
                        assert(arr_view(*other).cells.len() == y@.len());
                    }
                    return false;
                }
                let mut i: usize = 0;
                while i < x.len()
                    invariant
                        i <= x@.len(),
                        x@.len() == y@.len(),
                        self.data == Data::Char(*x),
                        other.data == Data::Char(*y),
                        forall|j: int| 0 <= j < i ==> x@[j] == y@[j],
                    decreases x@.len() - i,
                {
                    if x[i] != y[i] {
                        proof {
                            lemma_char_cells(x@);
                            lemma_char_cells(y@);
                            vstd::utf8::char_u32_cast(x@[i as int], x@[i as int] as u32);
                            vstd::utf8::char_u32_cast(y@[i as int], y@[i as int] as u32);
                            assert(x@[i as int] as u32 != y@[i as int] as u32);
                            assert(self@.cells[i as int] != arr_view(*other).cells[i as int]);
                        }
                        return false;
                    }
                    i += 1;
                }
                proof {
                    lemma_char_cells(x@);
                    lemma_char_cells(y@);
                    assert(x@ =~= y@);
                    assert(self@ =~= arr_view(*other));
                }
                true
            },
            (Data::Value(x), Data::Value(y)) => {
                proof {
                    assert(self.data == Data::Value(*x));
                    assert(other.data == Data::Value(*y));
                }
                if x.len() != y.len() {
                    proof {
                        lemma_box_cells(x@);
                        lemma_box_cells(y@);
                    }
                    return false;
                }
                let mut i: usize = 0;
                while i < x.len()
                    invariant
                        i <= x@.len(),
                        x@.len() == y@.len(),
                        self.data == Data::Value(*x),
                        other.data == Data::Value(*y),
                        forall|j: int|
                            0 <= j < i ==> arr_view(#[trigger] x@[j]) == arr_view(y@[j]),
                    decreases x@.len() - i,
                {
                    let eq = x[i].array_eq(&y[i]);
                    if !eq {
                        proof {
                            lemma_box_cells(x@);
                            lemma_box_cells(y@);
                            assert(self@.cells[i as int] != arr_view(*other).cells[i as int]);
                        }
                        return false;
                    }
                    i += 1;
                }
                proof {
                    lemma_box_cells(x@);
                    lemma_box_cells(y@);
                    assert(self@.cells =~= arr_view(*other).cells);
                    assert(self@ =~= arr_view(*other));
                }
                true
            },
            _ => {
                proof {
                    assert(self@.kind != arr_view(*other).kind);
                }
                false
            },
        }
    }

    /// Unwraps a boxed scalar: a rank-0 boxed-value array yields the array
    /// inside its single box; any other array is returned unchanged.
    pub fn unboxed(self) -> (r: Array)
        requires
            self.wf(),
        ensures
            (self@.kind == ArrayType::Value && self@.rank() == 0) ==> arr_view(r)
                == self@.cells[0]->B_0,
            !(self@.kind == ArrayType::Value && self@.rank() == 0) ==> arr_view(r) == self@,
            r.wf(),
    {
        let ghost v0 = self@;
        let rank_zero = self.shape.len() == 0;
        match self.data {
            Data::Value(mut v) => {
                if rank_zero {
                    proof {
                        lemma_box_cells(v@);
                        assert(v@.len() == 1);
                        lemma_cells_wf(v0.cells);
                        assert(cell_wf(v0.cells[0]));
                    }
                    let inner = v.pop().unwrap();
                    proof {
                        assert(arr_view(inner) == v0.cells[0]->B_0);
                    }
                    inner
                } else {
                    Array { shape: self.shape, data: Data::Value(v) }
                }
            },
            d => Array { shape: self.shape, data: d },
        }
    }

    /// Collapses a boxed-value array of uniform scalars to the scalar
    /// kind's own storage; leaves any other array unchanged.
    pub fn normalize(&mut self)
        requires
            old(self).wf(),
        ensures
            final(self)@ == normalize_view(old(self)@),
            final(self).wf(),
    {
        let ghost v0 = self@;
        let is_value = match &self.data {
            Data::Value(_) => true,
            _ => false,
        };
        if !is_value {
            return;
        }
        let all_char = self.all_scalars_of(ArrayType::Char);
        let all_num = if all_char {
            false
        } else {
            self.all_scalars_of(ArrayType::Num)
        };
        proof {
            lemma_cells_wf(v0.cells);
        }
        if all_char {
            match &self.data {
                Data::Value(v) => {
                    proof {
                        assert(self.data == Data::Value(*v));
                        lemma_box_cells(v@);
                        assert(v0.cells == box_cells(v@));
                        assert(v0.cells.len() == v@.len());
                    }
                    let mut buf: Vec<char> = Vec::new();
                    let mut i: usize = 0;
                    while i < v.len()
                        invariant
                            i <= v@.len(),
                            buf@.len() == i,
                            self.data == Data::Value(*v),
                            v0.cells == box_cells(v@),
                            v0.cells.len() == v@.len(),
                            all_box_scalars_of(v0.cells, ArrayType::Char),
                            forall|j: int| 0 <= j < v@.len() ==> cell_wf(#[trigger] v0.cells[j]),
                            forall|j: int|
                                0 <= j < i ==> CellView::C(#[trigger] buf@[j] as u32)
                                    == v0.cells[j]->B_0.cells[0],
                        decreases v@.len() - i,
                    {
                        proof {
                            lemma_box_cells(v@);
                            assert(v0.cells[i as int] == CellView::B(arr_view(v@[i as int])));
                        }
                        let c = match &v[i].data {
                            Data::Char(cb) => {
                                proof {
                                    lemma_char_cells(cb@);
                                }
                                cb[0]
                            },
                            _ => {
                                proof {
                                    assert(false);
                                }
                                ' '
                            },
                        };
                        buf.push(c);
                        i += 1;
                    }
                    proof {
                        lemma_box_cells(v@);
                        lemma_char_cells(buf@);
                    }
                    let shape = copy_shape(&self.shape);
                    let repl = Array { shape, data: Data::Char(buf) };
                    proof {
                        assert(arr_view(repl).cells =~= unbox_scalar_cells(v0.cells));
                        assert(arr_view(repl) =~= normalize_view(v0));
                        lemma_flat_cells_wf(arr_view(repl).cells);
                    }
                    *self = repl;
                },
                _ => {
                    proof {
                        assert(false);
                    }
                },
            }
        } else if all_num {
            match &self.data {
                Data::Value(v) => {
                    proof {
                        assert(self.data == Data::Value(*v));
                        lemma_box_cells(v@);
                        assert(v0.cells == box_cells(v@));
                        assert(v0.cells.len() == v@.len());
                    }
                    let mut buf: Vec<i64> = Vec::new();
                    let mut i: usize = 0;
                    while i < v.len()
                        invariant
                            i <= v@.len(),
                            buf@.len() == i,
                            self.data == Data::Value(*v),
                            v0.cells == box_cells(v@),
                            v0.cells.len() == v@.len(),
                            all_box_scalars_of(v0.cells, ArrayType::Num),
                            forall|j: int| 0 <= j < v@.len() ==> cell_wf(#[trigger] v0.cells[j]),
                            forall|j: int|
                                0 <= j < i ==> CellView::N(#[trigger] buf@[j])
                                    == v0.cells[j]->B_0.cells[0],
                        decreases v@.len() - i,
                    {
                        proof {
                            lemma_box_cells(v@);
                            assert(v0.cells[i as int] == CellView::B(arr_view(v@[i as int])));
                        }
                        let c = match &v[i].data {
                            Data::Num(nb) => nb[0],
                            _ => {
                                proof {
                                    assert(false);
                                }
                                0
                            },
                        };
                        buf.push(c);
                        i += 1;
                    }
                    proof {
                        lemma_box_cells(v@);
                    }
                    let shape = copy_shape(&self.shape);
                    let repl = Array { shape, data: Data::Num(buf) };
                    proof {
                        assert(arr_view(repl).cells =~= unbox_scalar_cells(v0.cells));
                        assert(arr_view(repl) =~= normalize_view(v0));
                        lemma_flat_cells_wf(arr_view(repl).cells);
                    }
                    *self = repl;
                },
                _ => {
                    proof {
                        assert(false);
                    }
                },
            }
        }
    }

    /// Whether every element of a boxed-value array is a scalar of kind `k`.
    fn all_scalars_of(&self, k: ArrayType) -> (r: bool)
        requires
            self.wf(),
            self@.kind == ArrayType::Value,
        ensures
            r == all_box_scalars_of(self@.cells, k),
    {
        match &self.data {
            Data::Value(v) => {
                proof {
                    lemma_box_cells(v@);
                    lemma_cells_wf(self@.cells);
                }
                let mut i: usize = 0;
                while i < v.len()
                    invariant
                        i <= v@.len(),
                        self.data == Data::Value(*v),
                        self.wf(),
                        self@.cells == box_cells(v@),
                        self@.cells.len() == v@.len(),
                        forall|j: int|
                            0 <= j < v@.len() ==> self@.cells[j] == CellView::B(
                                arr_view(#[trigger] v@[j]),
                            ),
                        forall|j: int| 0 <= j < v@.len() ==> cell_wf(#[trigger] self@.cells[j]),
                        forall|j: int|
                            0 <= j < i ==> box_is_scalar_of(#[trigger] self@.cells[j], k),
                    decreases v@.len() - i,
                {
                    let ok = v[i].ty() == k && v[i].rank() == 0;
                    if !ok {
                        proof {
                            assert(!box_is_scalar_of(self@.cells[i as int], k));
                        }
                        return false;
                    }
                    i += 1;
                }
                true
            },
            _ => {
                proof {
                    assert(false);
                }
                false
            },
        }
    }

    /// An array of boxed values: shape is the element count, each element
    /// one box, normalized afterward.
    pub fn from_boxes(v: Vec<Array>) -> (r: Array)
        requires
            forall|i: int| 0 <= i < v@.len() ==> (#[trigger] v@[i]).wf(),
        ensures
            r@ == normalize_view(
                ArrView {
                    shape: seq![v@.len() as usize],
                    kind: ArrayType::Value,
                    cells: box_cells(v@),
                },
            ),
            r.wf(),
    {
        let n = v.len();
        let ghost gv = v@;
        let mut shape: Vec<usize> = Vec::new();
        shape.push(n);
        let mut a = Array { shape, data: Data::Value(v) };
        proof {
            lemma_box_cells(gv);
            assert(a@.cells == box_cells(gv));
            assert(a@.shape =~= seq![n]);
            assert(a@.shape.drop_first() =~= Seq::<usize>::empty());
            assert(count(Seq::<usize>::empty()) == 1);
            assert forall|i: int| 0 <= i < a@.cells.len() implies cell_wf(#[trigger] a@.cells[i])
                && cell_is_kind(a@.cells[i], a@.kind) by {
                assert(a@.cells[i] == CellView::B(arr_view(gv[i])));
                assert(gv[i].wf());
            }
            lemma_cells_wf(a@.cells);
            assert(a.wf());
        }
        a.normalize();
        a
    }
}

impl Array {
    /// Whether one operand's shape is an element-wise-equal prefix of the
    /// other's (in either direction).
    pub fn shape_prefix_matches(&self, other: &Self) -> (r: bool)
        ensures
            r == crate::model::prefix_compat(self@.shape, other@.shape),
    {
        let n = if self.shape.len() <= other.shape.len() {
            self.shape.len()
        } else {
            other.shape.len()
        };
        let mut i: usize = 0;
        while i < n
            invariant
                i <= n,
                n <= self.shape@.len(),
                n <= other.shape@.len(),
                n == if self.shape@.len() <= other.shape@.len() {
                    self.shape@.len()
                } else {
                    other.shape@.len()
                },
                forall|j: int| 0 <= j < i ==> self.shape@[j] == other.shape@[j],
            decreases n - i,
        {
            if self.shape[i] != other.shape[i] {
                return false;
            }
            i += 1;
        }
        true
    }
}

/// Cuts a storage buffer into `n` same-length pieces, each carrying the
/// given shape.
pub(crate) fn split_pieces(data: Data, pl: usize, n: usize, pshape: &Vec<usize>) -> (r: Vec<Array>)
    requires
        data_cells(data).len() == n * pl,
        count(pshape@) == pl,
        cells_wf(data_cells(data)),
    ensures
        r@.len() == n,
        forall|i: int|
            0 <= i < n ==> arr_view(#[trigger] r@[i]) == (ArrView {
                shape: pshape@,
                kind: data_kind(data),
                cells: data_cells(data).subrange(i * (pl as int), i * (pl as int) + pl),
            }),
        forall|i: int| 0 <= i < n ==> (#[trigger] r@[i]).wf(),
{
    let ghost all = data_cells(data);
    let ghost kind0 = data_kind(data);
    let mut data = data;
    let mut rev: Vec<Array> = Vec::new();
    let mut k: usize = 0;
    while k < n
        invariant
            k <= n,
            all.len() == n * pl,
            cells_wf(all),
            count(pshape@) == pl,
            data_kind(data) == kind0,
            data_cells(data) == all.subrange(0, (n - k) * (pl as int)),
            rev@.len() == k,
            forall|j: int|
                0 <= j < k ==> arr_view(#[trigger] rev@[j]) == (ArrView {
                    shape: pshape@,
                    kind: kind0,
                    cells: all.subrange(
                        (n - 1 - j) * (pl as int),
                        (n - 1 - j) * (pl as int) + pl,
                    ),
                }),
            forall|j: int| 0 <= j < k ==> (#[trigger] rev@[j]).wf(),
        decreases n - k,
    {
        let ghost i = n - k - 1;
        proof {
            assert((n - k) * (pl as int) == i * (pl as int) + pl) by (nonlinear_arith)
                requires i == n - k - 1, 0 <= i,
            ;
            assert(0 <= i * (pl as int) && i * (pl as int) + pl <= n * pl) by (nonlinear_arith)
                requires 0 <= i < n, pl >= 0,
            ;
        }
        let chunk = split_tail(&mut data, pl);
        let cshape = copy_shape(pshape);
        let piece = Array { shape: cshape, data: chunk };
        proof {
            assert(arr_view(piece).cells =~= all.subrange(i * (pl as int), i * (pl as int) + pl));
            assert(data_cells(data) =~= all.subrange(0, (n - (k + 1)) * (pl as int)));
            // well-formedness of the piece
            lemma_data_cells_kind(chunk);
            lemma_cells_wf(all);
            assert forall|j: int| 0 <= j < arr_view(piece).cells.len() implies cell_wf(
                #[trigger] arr_view(piece).cells[j],
            ) by {
                assert(arr_view(piece).cells[j] == all[i * (pl as int) + j]);
            }
            lemma_cells_wf(arr_view(piece).cells);
        }
        rev.push(piece);
        k += 1;
    }
    let ghost rev0 = rev@;
    let mut out: Vec<Array> = Vec::new();
    while rev.len() > 0
        invariant
            out@.len() + rev@.len() == n,
            rev@ == rev0.subrange(0, rev@.len() as int),
            rev0.len() == n,
            forall|i: int| 0 <= i < out@.len() ==> out@[i] == rev0[n - 1 - i],
        decreases rev.len(),
    {
        let r = rev.pop().unwrap();
        proof {
            assert(rev0.subrange(0, rev0.len() as int) =~= rev0);
        }
        out.push(r);
        proof {
            assert(rev@ =~= rev0.subrange(0, rev@.len() as int));
        }
    }
    proof {
        assert forall|i: int| 0 <= i < n implies arr_view(#[trigger] out@[i]) == (ArrView {
            shape: pshape@,
            kind: kind0,
            cells: all.subrange(i * (pl as int), i * (pl as int) + pl),
        }) && out@[i].wf() by {
            assert(out@[i] == rev0[n - 1 - i]);
        }
    }
    out
}

/// The element a reshape pads with: the kind's default value — zero,
/// the nul character, or a box holding an empty number list.
pub open spec fn default_cell(k: ArrayType) -> CellView {
    match k {
        ArrayType::Num => CellView::N(0),
        ArrayType::Char => CellView::C(0),
        ArrayType::Value => CellView::B(
            ArrView { shape: seq![0usize], kind: ArrayType::Num, cells: Seq::empty() },
        ),
    }
}

impl Array {
    /// Flattens the array to rank 1 in place: the shape becomes the
    /// single element count, and the cells are unchanged.
    pub fn deshape(&mut self)
        requires
            old(self).wf(),
        ensures
            final(self).wf(),
            final(self)@.kind == old(self)@.kind,
            final(self)@.cells == old(self)@.cells,
            final(self)@.shape == seq![count(old(self)@.shape) as usize],
    {
        let n = self.element_count();
        let mut shape: Vec<usize> = Vec::new();
        shape.push(n);
        self.shape = shape;
        proof {
            assert(self@.shape =~= seq![n]);
            assert(self@.shape.drop_first() =~= Seq::<usize>::empty());
            assert(count(Seq::<usize>::empty()) == 1);
            assert(count(self@.shape) == n);
        }
    }

    /// The list of the first `n` natural numbers, in order.
    #[verifier::loop_isolation(false)]
    pub fn range(n: usize) -> (r: Array)
        requires
            n <= i64::MAX,
        ensures
            r.wf(),
            r@.kind == ArrayType::Num,
            r@.shape == seq![n],
            r@.cells == Seq::new(n as nat, |i: int| CellView::N(i as i64)),
    {
        let mut v: Vec<i64> = Vec::new();
        let mut i: usize = 0;
        while i < n
            invariant
                i <= n,
                n <= i64::MAX,
                v@.len() == i,
                forall|j: int| 0 <= j < i ==> v@[j] == j as i64,
            decreases n - i,
        {
            v.push(i as i64);
            i += 1;
        }
        let r = Array::from_nums(v);
        proof {
            assert(r@.cells =~= Seq::new(n as nat, |j: int| CellView::N(j as i64)));
        }
        r
    }

    /// Reshapes the array in place: the new shape replaces the old, and
    /// the storage is resized to the new element count — truncated at
    /// the end when smaller, padded with the element kind's default
    /// value when larger.
    #[verifier::loop_isolation(false)]
    pub fn reshape(&mut self, shape: Vec<usize>)
        requires
            old(self).wf(),
            count(shape@) <= usize::MAX,
        ensures
            final(self).wf(),
            final(self)@.kind == old(self)@.kind,
            final(self)@.shape == shape@,
            final(self)@.cells == Seq::new(
                count(shape@),
                |i: int|
                    if i < old(self)@.cells.len() {
                        old(self)@.cells[i]
                    } else {
                        default_cell(old(self)@.kind)
                    },
            ),
    {
        let ghost v0 = self@;
        let n = shape_count(&shape);
        let ghost gshape = shape@;
        let ghost target = Seq::new(
            count(shape@),
            |i: int|
                if i < v0.cells.len() {
                    v0.cells[i]
                } else {
                    default_cell(v0.kind)
                },
        );
        proof {
            lemma_cells_wf(v0.cells);
        }
        self.shape = shape;
        let mut data = Data::Num(Vec::new());
        core::mem::swap(&mut data, &mut self.data);
        match data {
            Data::Num(mut v) => {
                while v.len() > n
                    invariant
                        v@.len() <= v0.cells.len(),
                        v@.len() >= n || v@.len() == v0.cells.len(),
                        forall|j: int|
                            0 <= j < v@.len() ==> CellView::N(#[trigger] v@[j]) == v0.cells[j],
                    decreases v@.len(),
                {
                    let _discard = v.pop();
                }
                while v.len() < n
                    invariant
                        v@.len() <= n,
                        v@.len() >= v0.cells.len() || v@.len() == n,
                        n == count(gshape),
                        target.len() == n,
                        v0.kind is Num,
                        forall|j: int|
                            0 <= j < v@.len() ==> CellView::N(#[trigger] v@[j]) == target[j],
                    decreases n - v@.len(),
                {
                    v.push(0);
                }
                self.data = Data::Num(v);
                proof {
                    assert(self@.cells =~= target);
                }
            },
            Data::Char(mut v) => {
                proof {
                    lemma_char_cells(v@);
                }
                while v.len() > n
                    invariant
                        v@.len() <= v0.cells.len(),
                        v@.len() >= n || v@.len() == v0.cells.len(),
                        forall|j: int|
                            0 <= j < v@.len() ==> CellView::C(#[trigger] v@[j] as u32)
                                == v0.cells[j],
                    decreases v@.len(),
                {
                    let _discard = v.pop();
                }
                while v.len() < n
                    invariant
                        v@.len() <= n,
                        v@.len() >= v0.cells.len() || v@.len() == n,
                        n == count(gshape),
                        target.len() == n,
                        v0.kind is Char,
                        forall|j: int|
                            0 <= j < v@.len() ==> CellView::C(#[trigger] v@[j] as u32)
                                == target[j],
                    decreases n - v@.len(),
                {
                    v.push('\0');
                }
                self.data = Data::Char(v);
                proof {
                    lemma_char_cells(v@);
                    assert(self@.cells =~= target);
                }
            },
            Data::Value(mut v) => {
                proof {
                    lemma_box_cells(v@);
                }
                while v.len() > n
                    invariant
                        v@.len() <= v0.cells.len(),
                        v@.len() >= n || v@.len() == v0.cells.len(),
                        forall|j: int|
                            0 <= j < v@.len() ==> CellView::B(arr_view(#[trigger] v@[j]))
                                == v0.cells[j],
                    decreases v@.len(),
                {
                    let _discard = v.pop();
                }
                while v.len() < n
                    invariant
                        v@.len() <= n,
                        v@.len() >= v0.cells.len() || v@.len() == n,
                        n == count(gshape),
                        target.len() == n,
                        v0.kind is Value,
                        forall|j: int|
                            0 <= j < v@.len() ==> CellView::B(arr_view(#[trigger] v@[j]))
                                == target[j],
                    decreases n - v@.len(),
                {
                    let pad = Array { shape: empty_list_shape(), data: Data::Num(Vec::new()) };
                    proof {
                        assert(arr_view(pad).cells =~= Seq::<CellView>::empty());
                        assert(arr_view(pad).shape == seq![0usize]);
                        assert(count(seq![0usize]) == 0) by {
                            assert(seq![0usize].len() == 1);
                            assert(seq![0usize][0] == 0);
                        }
                        assert(arr_view(pad) =~= default_cell(ArrayType::Value)->B_0);
                        assert(CellView::B(arr_view(pad)) == default_cell(ArrayType::Value));
                    }
                    v.push(pad);
                }
                self.data = Data::Value(v);
                proof {
                    lemma_box_cells(v@);
                    assert(self@.cells =~= target);
                }
            },
        }
        proof {
            assert(self@.shape == gshape);
            assert(self@.kind == v0.kind);
            assert(self@.cells == target);
            assert forall|j: int| 0 <= j < self@.cells.len() implies cell_is_kind(
                #[trigger] self@.cells[j],
                self@.kind,
            ) && cell_wf(self@.cells[j]) by {
                if j < v0.cells.len() {
                    assert(self@.cells[j] == v0.cells[j]);
                } else {
                    assert(self@.cells[j] == default_cell(v0.kind));
                    if v0.kind is Value {
                        let d = default_cell(ArrayType::Value);
                        assert(d->B_0.cells.len() == 0);
                        assert(d->B_0.shape == seq![0usize]);
                        assert(count(seq![0usize]) == 0) by {
                            assert(seq![0usize].len() == 1);
                            assert(seq![0usize][0] == 0);
                        }
                        assert(view_wf(d->B_0));
                    }
                }
            }
            lemma_cells_wf(self@.cells);
            assert(view_wf(self@));
        }
    }
}

/// The element count of a shape buffer, as executable arithmetic.
#[verifier::loop_isolation(false)]
fn shape_count(shape: &Vec<usize>) -> (r: usize)
    requires
        count(shape@) <= usize::MAX,
    ensures
        r == count(shape@),
{
    let m = shape.len();
    let mut any_zero = false;
    let mut i: usize = 0;
    while i < m
        invariant
            i <= m,
            m == shape@.len(),
            any_zero == exists|j: int| 0 <= j < i && shape@[j] == 0,
        decreases m - i,
    {
        if shape[i] == 0 {
            any_zero = true;
        }
        i += 1;
    }
    if any_zero {
        proof {
            lemma_count_pos(shape@);
        }
        return 0;
    }
    proof {
        lemma_count_pos(shape@);
    }
    let mut p: usize = 1;
    let mut i: usize = 0;
    while i < m
        invariant
            i <= m,
            m == shape@.len(),
            count(shape@) <= usize::MAX,
            forall|j: int| 0 <= j < m ==> shape@[j] > 0,
            p == count(shape@.take(i as int)),
            p <= count(shape@),
        decreases m - i,
    {
        proof {
            lemma_count_split(shape@, i + 1);
            lemma_count_pos(shape@.skip(i + 1));
            assert forall|j: int| 0 <= j < shape@.skip(i + 1).len() implies #[trigger] shape@.skip(
                i + 1,
            )[j] > 0 by {
                assert(shape@.skip(i + 1)[j] == shape@[j + i + 1]);
            }
            assert(shape@.take(i + 1).drop_last() =~= shape@.take(i as int));
            assert(shape@.take(i + 1).last() == shape@[i as int]);
            lemma_take_step(shape@, i as int);
            assert(count(shape@.take(i + 1)) == p * shape@[i as int]);
            assert(count(shape@) == count(shape@.take(i + 1)) * count(shape@.skip(i + 1)));
            assert(count(shape@.take(i + 1)) <= count(shape@)) by (nonlinear_arith)
                requires
                    count(shape@) == count(shape@.take(i + 1)) * count(shape@.skip(i + 1)),
                    count(shape@.skip(i + 1)) >= 1,
                    count(shape@.take(i + 1)) >= 0,
            ;
        }
        p = p * shape[i];
        i += 1;
    }
    proof {
        assert(shape@.take(m as int) =~= shape@);
    }
    p
}

/// One more dimension multiplies the element count by it.
proof fn lemma_take_step(s: Seq<usize>, i: int)
    requires
        0 <= i < s.len(),
    ensures
        count(s.take(i + 1)) == count(s.take(i)) * s[i],
{
    lemma_count_split(s.take(i + 1), i);
    assert(s.take(i + 1).take(i) =~= s.take(i));
    assert(s.take(i + 1).skip(i) =~= seq![s[i]]);
    assert(seq![s[i]].drop_first() =~= Seq::<usize>::empty());
    assert(count(Seq::<usize>::empty()) == 1);
    assert(count(seq![s[i]]) == s[i] * 1);
}

/// The shape of an empty rank-1 list.
fn empty_list_shape() -> (r: Vec<usize>)
    ensures
        r@ == seq![0usize],
{
    let mut s: Vec<usize> = Vec::new();
    s.push(0);
    proof {
        assert(s@ =~= seq![0usize]);
    }
    s
}

} // verus!
