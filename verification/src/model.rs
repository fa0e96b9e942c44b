//! The mathematical model of arrays.
//!
//! Contracts throughout the crate speak of [`ArrView`], the model of an
//! [`Array`]: a shape, a kind tag, and a flat sequence of [`CellView`]
//! cells in row-major order, where a boxed cell carries the model of the
//! array inside it.

use vstd::prelude::*;

use crate::array::{Array, ArrayType, Data};

verus! {

/// The model of one array element.
#[verifier::ext_equal]
pub ghost enum CellView {
    /// A number element.
    N(i64),
    /// A character element, as its Unicode code point.
    C(u32),
    /// A boxed element: the model of the array inside the box.
    B(ArrView),
}

/// The mathematical model of an array.
#[verifier::ext_equal]
pub ghost struct ArrView {
    /// The dimension sizes, outermost first.
    pub shape: Seq<usize>,
    /// The element kind.
    pub kind: ArrayType,
    /// The elements in row-major order.
    pub cells: Seq<CellView>,
}

/// The element count of a shape: the product of its dimensions, 1 for the
/// empty (scalar) shape.
pub open spec fn count(s: Seq<usize>) -> nat
    decreases s.len(),
{
    if s.len() == 0 {
        1
    } else {
        (s[0] * count(s.drop_first())) as nat
    }
}

/// The cells of a number buffer.
pub open spec fn num_cells(s: Seq<i64>) -> Seq<CellView> {
    Seq::new(s.len(), |i: int| CellView::N(s[i]))
}

/// The cells of a character buffer.
pub open spec fn char_cells(s: Seq<char>) -> Seq<CellView>
    decreases s.len(),
{
    if s.len() == 0 {
        Seq::empty()
    } else {
        char_cells(s.drop_last()).push(CellView::C(s.last() as u32))
    }
}

/// `char_cells` pointwise: it keeps the length and tags each character.
pub broadcast proof fn lemma_char_cells(s: Seq<char>)
    ensures
        (#[trigger] char_cells(s)).len() == s.len(),
        forall|i: int| 0 <= i < s.len() ==> char_cells(s)[i] == CellView::C(s[i] as u32),
    decreases s.len(),
{
    if s.len() > 0 {
        lemma_char_cells(s.drop_last());
        assert forall|i: int| 0 <= i < s.len() implies char_cells(s)[i] == CellView::C(s[i] as u32) by {
            if i < s.len() - 1 {
                assert(s.drop_last()[i] == s[i]);
            }
        }
    }
}

/// The cells of a boxed-value buffer: each element's own model, boxed.
pub open spec fn box_cells(s: Seq<Array>) -> Seq<CellView>
    decreases s,
{
    if s.len() == 0 {
        Seq::empty()
    } else {
        box_cells(s.drop_last()).push(CellView::B(arr_view(s.last())))
    }
}

/// The kind selected by a storage buffer.
pub open spec fn data_kind(d: Data) -> ArrayType {
    match d {
        Data::Num(_) => ArrayType::Num,
        Data::Char(_) => ArrayType::Char,
        Data::Value(_) => ArrayType::Value,
    }
}

/// The cells held by a storage buffer.
pub open spec fn data_cells(d: Data) -> Seq<CellView>
    decreases d,
{
    match d {
        Data::Num(v) => num_cells(v@),
        Data::Char(v) => char_cells(v@),
        Data::Value(v) => box_cells(v@),
    }
}

/// The model of an array.
pub open spec fn arr_view(a: Array) -> ArrView
    decreases a,
{
    ArrView { shape: a.shape@, kind: data_kind(a.data), cells: data_cells(a.data) }
}

impl View for Array {
    type V = ArrView;

    open spec fn view(&self) -> ArrView {
        arr_view(*self)
    }
}

/// `box_cells` pointwise: it keeps the length and boxes each element's model.
pub broadcast proof fn lemma_box_cells(s: Seq<Array>)
    ensures
        (#[trigger] box_cells(s)).len() == s.len(),
        forall|i: int| 0 <= i < s.len() ==> box_cells(s)[i] == CellView::B(arr_view(s[i])),
    decreases s,
{
    if s.len() > 0 {
        lemma_box_cells(s.drop_last());
        assert forall|i: int| 0 <= i < s.len() implies box_cells(s)[i] == CellView::B(
            arr_view(s[i]),
        ) by {
            if i < s.len() - 1 {
                assert(s.drop_last()[i] == s[i]);
            }
        }
    }
}

/// Whether a cell belongs to an array of the given kind.
pub open spec fn cell_is_kind(c: CellView, k: ArrayType) -> bool {
    match c {
        CellView::N(_) => k == ArrayType::Num,
        CellView::C(_) => k == ArrayType::Char,
        CellView::B(_) => k == ArrayType::Value,
    }
}

/// Whether one cell is internally well formed.
pub open spec fn cell_wf(c: CellView) -> bool
    decreases c,
{
    match c {
        CellView::B(v) => view_wf(v),
        _ => true,
    }
}

/// Whether every cell of a sequence is internally well formed.
pub open spec fn cells_wf(s: Seq<CellView>) -> bool
    decreases s,
{
    if s.len() == 0 {
        true
    } else {
        cells_wf(s.drop_last()) && cell_wf(s.last())
    }
}

/// Well-formedness of a model: the cell count matches the shape's element
/// count, every cell matches the kind tag, and boxed cells are themselves
/// well formed.
pub open spec fn view_wf(v: ArrView) -> bool
    decreases v,
{
    &&& v.cells.len() == count(v.shape)
    &&& forall|i: int| 0 <= i < v.cells.len() ==> cell_is_kind(#[trigger] v.cells[i], v.kind)
    &&& cells_wf(v.cells)
}

/// `cells_wf` pointwise.
pub proof fn lemma_cells_wf(s: Seq<CellView>)
    ensures
        cells_wf(s) <==> (forall|i: int| 0 <= i < s.len() ==> cell_wf(#[trigger] s[i])),
    decreases s,
{
    if s.len() > 0 {
        lemma_cells_wf(s.drop_last());
        if cells_wf(s) {
            assert forall|i: int| 0 <= i < s.len() implies cell_wf(#[trigger] s[i]) by {
                if i < s.len() - 1 {
                    assert(s.drop_last()[i] == s[i]);
                }
            }
        } else {
            if forall|i: int| 0 <= i < s.len() ==> cell_wf(#[trigger] s[i]) {
                assert forall|i: int| 0 <= i < s.drop_last().len() implies cell_wf(
                    #[trigger] s.drop_last()[i],
                ) by {
                    assert(s.drop_last()[i] == s[i]);
                }
                assert(cell_wf(s.last()));
            }
        }
    }
}

impl ArrView {
    /// The rank: the number of dimensions.
    pub open spec fn rank(self) -> nat {
        self.shape.len()
    }

    /// The number of rows: the outermost dimension, 1 for a scalar.
    pub open spec fn row_count(self) -> nat {
        if self.rank() == 0 {
            1
        } else {
            self.shape[0] as nat
        }
    }

    /// The shape of one row: the shape without its outermost dimension.
    pub open spec fn row_shape(self) -> Seq<usize> {
        if self.rank() == 0 {
            self.shape
        } else {
            self.shape.drop_first()
        }
    }

    /// The cell count of one row.
    pub open spec fn row_len(self) -> nat {
        count(self.row_shape())
    }

    /// The model of row `i`: the sub-array fixing the outermost dimension
    /// to `i`. A scalar is its own single row.
    pub open spec fn row(self, i: int) -> ArrView {
        if self.rank() == 0 {
            self
        } else {
            ArrView {
                shape: self.row_shape(),
                kind: self.kind,
                cells: self.cells.subrange(
                    i * self.row_len(),
                    (i + 1) * self.row_len(),
                ),
            }
        }
    }
}


/// Flat (number or character) cell sequences are always well formed.
pub proof fn lemma_flat_cells_wf(s: Seq<CellView>)
    requires
        forall|i: int| 0 <= i < s.len() ==> !(#[trigger] s[i] is B),
    ensures
        cells_wf(s),
    decreases s,
{
    if s.len() > 0 {
        assert(!(s[s.len() - 1] is B));
        assert(cell_wf(s.last()));
        assert forall|i: int| 0 <= i < s.drop_last().len() implies !(
        #[trigger] s.drop_last()[i] is B) by {
            assert(s.drop_last()[i] == s[i]);
        }
        lemma_flat_cells_wf(s.drop_last());
    }
}


/// The concatenation of the cells of a sequence of models, in order.
pub open spec fn concat_rows(s: Seq<ArrView>) -> Seq<CellView>
    decreases s,
{
    if s.len() == 0 {
        Seq::empty()
    } else {
        concat_rows(s.drop_last()) + s.last().cells
    }
}

/// The model of an array stacked from `n` rows of shape `rs`: one row per
/// entry, in order.
pub open spec fn stacked(rows: Seq<ArrView>, rs: Seq<usize>, k: ArrayType) -> ArrView {
    ArrView { shape: seq![rows.len() as usize].add(rs), kind: k, cells: concat_rows(rows) }
}

/// Concatenating rows of a uniform length keeps each row recoverable as a
/// subrange.
pub proof fn lemma_concat_rows_uniform(s: Seq<ArrView>, rl: nat)
    requires
        forall|i: int| 0 <= i < s.len() ==> (#[trigger] s[i]).cells.len() == rl,
    ensures
        concat_rows(s).len() == s.len() * rl,
        forall|i: int|
            0 <= i < s.len() ==> concat_rows(s).subrange(i * rl, i * rl + rl)
                == (#[trigger] s[i]).cells,
    decreases s,
{
    if s.len() == 0 {
        assert(concat_rows(s).len() == s.len() * rl);
    } else {
        let dl = s.drop_last();
        let n = s.len() as int;
        assert forall|i: int| 0 <= i < dl.len() implies (#[trigger] dl[i]).cells.len() == rl by {
            assert(dl[i] == s[i]);
        }
        lemma_concat_rows_uniform(dl, rl);
        assert(concat_rows(s).len() == (n - 1) * rl + rl) by {
            assert(concat_rows(dl).len() == (n - 1) * rl);
        }
        assert((n - 1) * rl + rl == n * rl) by (nonlinear_arith);
        assert forall|i: int| 0 <= i < n implies concat_rows(s).subrange(i * rl, i * rl + rl) == (
        #[trigger] s[i]).cells by {
            assert(0 <= i * rl && i * rl + rl <= n * rl) by (nonlinear_arith)
                requires 0 <= i < n,
            ;
            if i < n - 1 {
                assert(dl[i] == s[i]);
                assert(i * rl + rl <= (n - 1) * rl) by (nonlinear_arith)
                    requires 0 <= i < n - 1,
                ;
                assert(concat_rows(s).subrange(i * rl, i * rl + rl) =~= concat_rows(dl).subrange(
                    i * rl,
                    i * rl + rl,
                ));
            } else {
                assert(concat_rows(s).subrange(i * rl, i * rl + rl) =~= s.last().cells);
            }
        }
    }
}

/// A well-formed model's rows are well formed, and their cells are the
/// matching subranges of the whole.
pub proof fn lemma_row_wf(v: ArrView, i: int)
    requires
        view_wf(v),
        v.rank() >= 1,
        0 <= i < v.row_count(),
    ensures
        view_wf(v.row(i)),
        v.row(i).cells.len() == v.row_len(),
        i * v.row_len() + v.row_len() <= v.cells.len(),
    decreases v.rank(),
{
    let rl = v.row_len() as int;
    let rc = v.row_count() as int;
    assert(v.cells.len() == rc * rl) by {
        assert(v.shape.drop_first() =~= v.row_shape());
    }
    assert(0 <= i * rl && i * rl + rl <= rc * rl) by (nonlinear_arith)
        requires 0 <= i < rc, rl >= 0,
    ;
    assert((i + 1) * rl == i * rl + rl) by (nonlinear_arith);
    let r = v.row(i);
    assert(r.cells.len() == rl);
    lemma_cells_wf(v.cells);
    assert forall|j: int| 0 <= j < r.cells.len() implies cell_is_kind(#[trigger] r.cells[j], r.kind)
        && cell_wf(r.cells[j]) by {
        assert(r.cells[j] == v.cells[i * rl + j]);
    }
    lemma_cells_wf(r.cells);
}

/// The models of the arrays of a sequence, in order.
pub open spec fn arr_views(s: Seq<Array>) -> Seq<ArrView>
    decreases s,
{
    if s.len() == 0 {
        Seq::empty()
    } else {
        arr_views(s.drop_last()).push(arr_view(s.last()))
    }
}

/// `arr_views` pointwise.
pub broadcast proof fn lemma_arr_views(s: Seq<Array>)
    ensures
        (#[trigger] arr_views(s)).len() == s.len(),
        forall|i: int| 0 <= i < s.len() ==> arr_views(s)[i] == arr_view(s[i]),
    decreases s,
{
    if s.len() > 0 {
        lemma_arr_views(s.drop_last());
        assert forall|i: int| 0 <= i < s.len() implies arr_views(s)[i] == arr_view(s[i]) by {
            if i < s.len() - 1 {
                assert(s.drop_last()[i] == s[i]);
            }
        }
    }
}

/// Whether all arrays of a sequence share the first one's kind and shape.
pub open spec fn rows_uniform(s: Seq<Array>) -> bool {
    forall|i: int|
        0 <= i < s.len() ==> (#[trigger] arr_view(s[i])).kind == arr_view(s[0]).kind && arr_view(
            s[i],
        ).shape == arr_view(s[0]).shape
}

/// Whether a cell is a box holding a scalar of kind `k`.
pub open spec fn box_is_scalar_of(c: CellView, k: ArrayType) -> bool {
    &&& c is B
    &&& c->B_0.kind == k
    &&& c->B_0.shape.len() == 0
    &&& c->B_0.cells.len() == 1
}

/// Whether every cell is a box holding a scalar of kind `k`.
pub open spec fn all_box_scalars_of(cells: Seq<CellView>, k: ArrayType) -> bool {
    forall|i: int| 0 <= i < cells.len() ==> box_is_scalar_of(#[trigger] cells[i], k)
}

/// The cells inside a sequence of scalar boxes.
pub open spec fn unbox_scalar_cells(cells: Seq<CellView>) -> Seq<CellView> {
    Seq::new(cells.len(), |i: int| cells[i]->B_0.cells[0])
}

/// Normalization: a boxed-value array whose every element is a character
/// scalar collapses to a character array, and likewise for numbers; any
/// other array is left as it is.
pub open spec fn normalize_view(v: ArrView) -> ArrView {
    if v.kind == ArrayType::Value && all_box_scalars_of(v.cells, ArrayType::Char) {
        ArrView { shape: v.shape, kind: ArrayType::Char, cells: unbox_scalar_cells(v.cells) }
    } else if v.kind == ArrayType::Value && all_box_scalars_of(v.cells, ArrayType::Num) {
        ArrView { shape: v.shape, kind: ArrayType::Num, cells: unbox_scalar_cells(v.cells) }
    } else {
        v
    }
}

/// A shape has a positive element count exactly when every dimension is
/// positive.
pub proof fn lemma_count_pos(s: Seq<usize>)
    ensures
        count(s) > 0 <==> (forall|i: int| 0 <= i < s.len() ==> s[i] > 0),
    decreases s.len(),
{
    if s.len() > 0 {
        lemma_count_pos(s.drop_first());
        assert(count(s) == s[0] * count(s.drop_first()));
        if s[0] > 0 && count(s.drop_first()) > 0 {
            assert(s[0] * count(s.drop_first()) > 0) by (nonlinear_arith)
                requires s[0] > 0, count(s.drop_first()) > 0,
            ;
        }
        if count(s) > 0 {
            assert(s[0] > 0 && count(s.drop_first()) > 0) by (nonlinear_arith)
                requires s[0] * count(s.drop_first()) > 0,
            ;
        }
        assert forall|i: int| 0 <= i < s.len() && count(s) > 0 implies s[i] > 0 by {
            if i > 0 {
                assert(s.drop_first()[i - 1] == s[i]);
            }
        }
        if forall|i: int| 0 <= i < s.len() ==> s[i] > 0 {
            assert forall|i: int| 0 <= i < s.drop_first().len() implies s.drop_first()[i] > 0 by {
                assert(s.drop_first()[i] == s[i + 1]);
            }
        }
    }
}

/// Whether one shape is an element-wise-equal prefix of the other.
pub open spec fn prefix_compat(a: Seq<usize>, b: Seq<usize>) -> bool {
    forall|i: int| 0 <= i < a.len() && i < b.len() ==> a[i] == b[i]
}

/// The element count of a shape splits at any depth.
pub proof fn lemma_count_split(s: Seq<usize>, d: int)
    requires
        0 <= d <= s.len(),
    ensures
        count(s) == count(s.take(d)) * count(s.skip(d)),
    decreases d,
{
    if d == 0 {
        assert(s.take(0) =~= Seq::<usize>::empty());
        assert(s.skip(0) =~= s);
        assert(count(Seq::<usize>::empty()) == 1);
    } else {
        lemma_count_split(s.drop_first(), d - 1);
        assert(s.drop_first().take(d - 1) =~= s.take(d).drop_first());
        assert(s.drop_first().skip(d - 1) =~= s.skip(d));
        assert(count(s) == s[0] * count(s.drop_first()));
        assert(count(s.take(d)) == s.take(d)[0] * count(s.take(d).drop_first()));
        assert(s.take(d)[0] == s[0]);
        assert(count(s) == s[0] * (count(s.take(d).drop_first()) * count(s.skip(d))))
            by (nonlinear_arith)
            requires
                count(s) == s[0] * count(s.drop_first()),
                count(s.drop_first()) == count(s.take(d).drop_first()) * count(s.skip(d)),
        ;
        assert(count(s.take(d)) * count(s.skip(d)) == s[0] * (count(s.take(d).drop_first())
            * count(s.skip(d)))) by (nonlinear_arith)
            requires
                count(s.take(d)) == s[0] * count(s.take(d).drop_first()),
        ;
        assert(count(s) == count(s.take(d)) * count(s.skip(d)));
    }
}

/// The cells a buffer holds match its kind.
pub proof fn lemma_data_cells_kind(d: Data)
    ensures
        forall|i: int|
            0 <= i < data_cells(d).len() ==> cell_is_kind(#[trigger] data_cells(d)[i], data_kind(d)),
    decreases d,
{
    match d {
        Data::Num(v) => {},
        Data::Char(v) => {
            lemma_char_cells(v@);
        },
        Data::Value(v) => {
            lemma_box_cells(v@);
        },
    }
}

impl ArrView {
    /// The shape of one depth-`d` slice.
    pub open spec fn slice_shape(self, d: int) -> Seq<usize> {
        self.shape.skip(d)
    }

    /// The cell count of one depth-`d` slice.
    pub open spec fn slice_len(self, d: int) -> nat {
        count(self.slice_shape(d))
    }

    /// The number of depth-`d` slices.
    pub open spec fn slice_count(self, d: int) -> nat {
        count(self.shape.take(d))
    }

    /// The model of depth-`d` slice `i`.
    pub open spec fn slice(self, d: int, i: int) -> ArrView {
        ArrView {
            shape: self.slice_shape(d),
            kind: self.kind,
            cells: self.cells.subrange(i * self.slice_len(d), (i + 1) * self.slice_len(d)),
        }
    }
}

/// A well-formed model's slices are well formed, and their cells are the
/// matching subranges of the whole.
pub proof fn lemma_slice_wf(v: ArrView, d: int, i: int)
    requires
        view_wf(v),
        0 <= d <= v.rank(),
        0 <= i < v.slice_count(d),
    ensures
        view_wf(v.slice(d, i)),
        v.slice(d, i).cells.len() == v.slice_len(d),
        i * v.slice_len(d) + v.slice_len(d) <= v.cells.len(),
{
    let sl = v.slice_len(d) as int;
    let sc = v.slice_count(d) as int;
    lemma_count_split(v.shape, d);
    assert(v.cells.len() == sc * sl);
    assert(0 <= i * sl && i * sl + sl <= sc * sl) by (nonlinear_arith)
        requires 0 <= i < sc, sl >= 0,
    ;
    assert((i + 1) * sl == i * sl + sl) by (nonlinear_arith);
    let r = v.slice(d, i);
    assert(r.cells.len() == sl);
    assert(count(r.shape) == sl);
    lemma_cells_wf(v.cells);
    assert forall|j: int| 0 <= j < r.cells.len() implies cell_is_kind(#[trigger] r.cells[j], r.kind)
        && cell_wf(r.cells[j]) by {
        assert(r.cells[j] == v.cells[i * sl + j]);
    }
    lemma_cells_wf(r.cells);
}

} // verus!
