//! The packing search: every row of the two-dimensional array is shifted
//! onto a one-dimensional array with one slot for each word, so that no two
//! cells share a slot.

use vstd::prelude::*;
use vstd::string::*;
use vstd::arithmetic::div_mod::{
    lemma_fundamental_div_mod, lemma_fundamental_div_mod_converse, lemma_mod_bound, lemma_small_mod,
};
use crate::error::{Error, Kind, KindView};
use crate::permutation::{is_permutation, lemma_pigeonhole};
use crate::rlt::Rlt;
use crate::two_d_array::{
    lemma_same_shape, listed, precedes, same_shape, Row, RowSizeIterator, TwoDArray,
};

verus! {

/// A one dimensional packed array.
#[derive(Debug)]
pub struct OneDPackedArray {
    /// The packed array: for every slot the ordinal of the word that has it.
    array: Vec<usize>,
    /// The row lookup table: for every row the displacement by which its
    /// columns were shifted.
    rlt: Rlt,
}

/// How the packing of the rows of an array ends.
pub enum Packing {
    /// Every row has a place; the displacements are those of the rows in the
    /// order in which they were placed.
    Packed(Seq<int>),
    /// Some row fits nowhere among the rows placed before it.
    Infeasible,
    /// An index is too large for the signed integers of the lookup table.
    Overflow,
}

/// The slot on which column `c` falls when its row is shifted by `d` in an
/// array of `n` slots.
pub open spec fn slot(c: int, d: int, n: int) -> int {
    (c + d) % n
}

/// Whether some column of `cols`, shifted by `d`, falls on slot `p`.
pub open spec fn falls_on(cols: Seq<usize>, d: int, n: int, p: int) -> bool {
    exists|i: int| 0 <= i < cols.len() && #[trigger] slot(cols[i] as int, d, n) == p
}

/// The slots that the first rows have once they are shifted by `ds`, row `k`
/// by `ds[k]`.
pub open spec fn taken(rows: Seq<Seq<usize>>, ds: Seq<int>, n: int) -> Set<int> {
    Set::new(|p: int| exists|k: int| 0 <= k < ds.len() && #[trigger] falls_on(rows[k], ds[k], n, p))
}

/// A row with the columns `cols` can be shifted by `d`: its columns fall on
/// slots that are free, each on one of its own.
pub open spec fn fits(cols: Seq<usize>, d: int, n: int, taken: Set<int>) -> bool {
    &&& forall|i: int| 0 <= i < cols.len() ==>
        !taken.contains(#[trigger] slot(cols[i] as int, d, n))
    &&& forall|i: int, j: int|
        0 <= i < j < cols.len() ==> #[trigger] slot(cols[i] as int, d, n) != #[trigger] slot(
            cols[j] as int,
            d,
            n,
        )
}

/// `d` is the displacement that the search gives a row: the least by which
/// the row can be shifted, among those that put its first column on a slot
/// of the array without wrapping around.
pub open spec fn is_first_fit(cols: Seq<usize>, d: int, n: int, taken: Set<int>) -> bool {
    &&& 0 <= cols[0] + d < n
    &&& fits(cols, d, n, taken)
    &&& forall|e: int| -cols[0] <= e < d ==> !#[trigger] fits(cols, e, n, taken)
}

/// The row can be placed.
pub open spec fn placeable(cols: Seq<usize>, n: int, taken: Set<int>) -> bool {
    exists|d: int| is_first_fit(cols, d, n, taken)
}

/// The displacement of a row that can be placed.
pub open spec fn first_fit(cols: Seq<usize>, n: int, taken: Set<int>) -> int {
    choose|d: int| is_first_fit(cols, d, n, taken)
}

/// How the packing stands when the first `k` rows were tried in turn, each
/// against the slots that the rows before it have taken.
pub open spec fn pack(rows: Seq<Seq<usize>>, n: int, k: nat) -> Packing
    decreases k,
{
    if k == 0 {
        Packing::Packed(Seq::empty())
    } else {
        match pack(rows, n, (k - 1) as nat) {
            Packing::Packed(ds) => {
                let cols = rows[k - 1];
                if cols.last() > isize::MAX {
                    Packing::Overflow
                } else if placeable(cols, n, taken(rows, ds, n)) {
                    Packing::Packed(ds.push(first_fit(cols, n, taken(rows, ds, n))))
                } else {
                    Packing::Infeasible
                }
            },
            stuck => stuck,
        }
    }
}

/// The columns of the rows of `a`, the rows in the order in which they are
/// packed.
pub open spec fn cols_by_size(a: TwoDArray) -> Seq<Seq<usize>> {
    Seq::new(a.by_size().len(), |x: int| a.by_size()[x].1.cols())
}

/// How the packing of `a` ends.
pub open spec fn pack_all(a: TwoDArray) -> Packing {
    if a.last_row_index() == usize::MAX || a.num_entries() > isize::MAX {
        Packing::Overflow
    } else {
        pack(cols_by_size(a), a.num_entries() as int, a.by_size().len())
    }
}

/// Whether `r` is the index of one of the first `upto` rows.
pub open spec fn is_index_of(rows: Seq<(usize, Row)>, upto: int, r: int) -> bool {
    exists|k: int| 0 <= k < upto && (#[trigger] rows[k]).0 == r
}

/// The message of the error for rows that cannot be packed.
pub open spec fn infeasible_error() -> KindView {
    KindView::OneDPackedArrayError("unable to minimally pack array"@)
}

/// The message of the error for an index that is too large.
pub open spec fn overflow_error() -> KindView {
    KindView::OneDPackedArrayError("Unexpected index overflow"@)
}

/// The flags as the set of the slots that are flagged.
pub open spec fn marks(used: Seq<bool>) -> Set<int> {
    Set::new(|p: int| 0 <= p < used.len() && used[p])
}

/// The residue of a negative number: where its magnitude is a multiple of
/// `n` it is zero, and else it is what `n` exceeds the residue of the
/// magnitude by.
pub proof fn lemma_negative_residue(x: int, n: int)
    requires
        x >= 0,
        n > 0,
    ensures
        (-x) % n == if x % n == 0 {
            0
        } else {
            n - x % n
        },
{
    let q = x / n;
    let m = x % n;
    lemma_fundamental_div_mod(x, n);
    lemma_mod_bound(x, n);
    if m == 0 {
        assert(-x == (-q) * n + 0) by (nonlinear_arith)
            requires
                x == n * q + m,
                m == 0,
        ;
        lemma_fundamental_div_mod_converse(-x, n, -q, 0);
    } else {
        assert(-x == (-q - 1) * n + (n - m)) by (nonlinear_arith)
            requires
                x == n * q + m,
        ;
        lemma_fundamental_div_mod_converse(-x, n, -q - 1, n - m);
    }
}

/// Once the packing is stuck, it stays as it is.
pub proof fn lemma_pack_stuck(rows: Seq<Seq<usize>>, n: int, k: nat, m: nat)
    requires
        k <= m,
        !(pack(rows, n, k) is Packed),
    ensures
        pack(rows, n, m) == pack(rows, n, k),
    decreases m,
{
    if m > k {
        lemma_pack_stuck(rows, n, k, (m - 1) as nat);
    }
}

/// A row has one first fit at most.
pub proof fn lemma_first_fit_unique(cols: Seq<usize>, d: int, n: int, taken: Set<int>)
    requires
        is_first_fit(cols, d, n, taken),
    ensures
        placeable(cols, n, taken),
        first_fit(cols, n, taken) == d,
{
    let e = first_fit(cols, n, taken);
    assert(is_first_fit(cols, e, n, taken));
    if e < d {
        assert(!fits(cols, e, n, taken));
    } else if d < e {
        assert(!fits(cols, d, n, taken));
    }
}

/// The indices of the rows of `a`, the rows in the order in which they are
/// packed.
pub open spec fn indices_by_size(a: TwoDArray) -> Seq<usize> {
    Seq::new(a.by_size().len(), |x: int| a.by_size()[x].0)
}

/// The displacement of row `r` where the rows with the indices `indices`
/// have the displacements `ds`, and zero for a row that is not among them.
pub open spec fn displacement_at(indices: Seq<usize>, ds: Seq<int>, r: int) -> int {
    if exists|k: int| 0 <= k < indices.len() && #[trigger] indices[k] == r {
        ds[choose|k: int| 0 <= k < indices.len() && #[trigger] indices[k] == r]
    } else {
        0
    }
}

/// The row lookup table of `len` entries for the rows with the indices
/// `indices` and the displacements `ds`.
pub open spec fn table_of(indices: Seq<usize>, ds: Seq<int>, len: nat) -> Seq<isize> {
    Seq::new(len, |r: int| displacement_at(indices, ds, r) as isize)
}

/// Where the rows are packed, each row was shifted by its first fit among
/// the rows packed before it, and none has a column too large for a signed
/// integer.
pub proof fn lemma_pack_fits(rows: Seq<Seq<usize>>, n: int, k: nat)
    requires
        pack(rows, n, k) is Packed,
    ensures
        ({
            let ds = pack(rows, n, k)->Packed_0;
            &&& ds.len() == k
            &&& forall|j: int|
                0 <= j < k ==> (#[trigger] rows[j]).last() <= isize::MAX && is_first_fit(
                    rows[j],
                    ds[j],
                    n,
                    taken(rows, ds.take(j), n),
                )
        }),
    decreases k,
{
    if k > 0 {
        let before = pack(rows, n, (k - 1) as nat)->Packed_0;
        lemma_pack_fits(rows, n, (k - 1) as nat);
        let ds = pack(rows, n, k)->Packed_0;
        let cols = rows[k - 1];
        assert(placeable(cols, n, taken(rows, before, n)));
        assert(is_first_fit(cols, ds[k - 1], n, taken(rows, before, n)));
        assert(ds.take(k - 1) =~= before);
        assert forall|j: int| 0 <= j < k implies (#[trigger] rows[j]).last() <= isize::MAX
            && is_first_fit(rows[j], ds[j], n, taken(rows, ds.take(j), n)) by {
            if j < k - 1 {
                assert(ds.take(j) =~= before.take(j));
            }
        }
    }
}

/// Where the rows are packed, no two cells fall on one slot.
pub proof fn lemma_slots_differ(rows: Seq<Seq<usize>>, n: int, k: nat, j1: int, i1: int, j2: int, i2: int)
    requires
        pack(rows, n, k) is Packed,
        0 <= j1 < k,
        0 <= j2 < k,
        0 <= i1 < rows[j1].len(),
        0 <= i2 < rows[j2].len(),
        j1 != j2 || i1 != i2,
    ensures
        slot(rows[j1][i1] as int, pack(rows, n, k)->Packed_0[j1], n) != slot(
            rows[j2][i2] as int,
            pack(rows, n, k)->Packed_0[j2],
            n,
        ),
{
    let ds = pack(rows, n, k)->Packed_0;
    lemma_pack_fits(rows, n, k);
    if j1 == j2 {
        assert(fits(rows[j1], ds[j1], n, taken(rows, ds.take(j1), n)));
        if i1 < i2 {
            assert(slot(rows[j1][i1] as int, ds[j1], n) != slot(rows[j1][i2] as int, ds[j1], n));
        } else {
            assert(slot(rows[j1][i2] as int, ds[j1], n) != slot(rows[j1][i1] as int, ds[j1], n));
        }
    } else {
        let (ja, ia, jb, ib) = if j1 < j2 {
            (j1, i1, j2, i2)
        } else {
            (j2, i2, j1, i1)
        };
        let p = slot(rows[ja][ia] as int, ds[ja], n);
        let earlier = ds.take(jb);
        assert(earlier[ja] == ds[ja]);
        assert(falls_on(rows[ja], earlier[ja], n, p));
        assert(taken(rows, earlier, n).contains(p));
        assert(fits(rows[jb], ds[jb], n, taken(rows, earlier, n)));
        assert(!taken(rows, earlier, n).contains(slot(rows[jb][ib] as int, ds[jb], n)));
    }
}

/// Two arrays in which the same cells are in use, made for as many words,
/// are packed alike: the rows have the same indices and the same columns,
/// so that the packing ends in the same way.
pub proof fn lemma_same_packing(a: TwoDArray, b: TwoDArray)
    requires
        a.wf(),
        b.wf(),
        same_shape(a, b),
        a.num_entries() == b.num_entries(),
    ensures
        indices_by_size(a) == indices_by_size(b),
        cols_by_size(a) == cols_by_size(b),
        a.last_row_index() == b.last_row_index(),
        pack_all(a) == pack_all(b),
{
    lemma_same_shape(a, b);
    assert(indices_by_size(a) =~= indices_by_size(b));
    assert(cols_by_size(a) =~= cols_by_size(b)) by {
        assert forall|x: int| 0 <= x < a.by_size().len() implies
            cols_by_size(a)[x] == cols_by_size(b)[x] by {
            let at = a.order()[x] as int;
            assert(a.rows()[at].cols() == b.rows()[at].cols());
        }
    }
}

/// The lookup table of a packed array is the table of the displacements.
pub proof fn lemma_table(packed: OneDPackedArray, a: TwoDArray, ds: Seq<int>)
    requires
        a.wf(),
        packed.holds_packing(a, ds),
    ensures
        packed.rlt().table() == table_of(indices_by_size(a), ds, (a.last_row_index() + 1) as nat),
{
    let indices = indices_by_size(a);
    let rows = a.by_size();
    let table = packed.rlt().table();
    let expected = table_of(indices, ds, (a.last_row_index() + 1) as nat);
    assert forall|r: int| 0 <= r < table.len() implies table[r] == expected[r] by {
        if exists|k: int| 0 <= k < indices.len() && #[trigger] indices[k] == r {
            let k = choose|k: int| 0 <= k < indices.len() && #[trigger] indices[k] == r;
            assert(rows[k].0 == r);
            assert(table[rows[k].0 as int] == ds[k]);
        } else {
            if is_index_of(rows, ds.len() as int, r) {
                let k = choose|k: int| 0 <= k < ds.len() && (#[trigger] rows[k]).0 == r;
                assert(indices[k] == r);
            }
        }
    }
    assert(table =~= expected);
}

/// In the packed array every cell of the array that was packed has its
/// ordinal in its slot: the slot on which its column falls when it is
/// shifted by what the lookup table holds for its row.
pub proof fn lemma_cells_in_slots(packed: OneDPackedArray, a: TwoDArray, ds: Seq<int>)
    requires
        a.wf(),
        pack_all(a) == Packing::Packed(ds),
        packed.holds_packing(a, ds),
    ensures
        forall|r: usize, c: usize, v: usize| #[trigger] a.holds(r, c, v) ==> {
            let p = slot(c as int, packed.rlt().table()[r as int] as int, a.num_entries() as int);
            &&& r < packed.rlt().table().len()
            &&& 0 <= p < packed.array().len()
            &&& packed.array()[p] == v
        },
{
    let n = a.num_entries() as int;
    assert forall|r: usize, c: usize, v: usize| #[trigger] a.holds(r, c, v) implies ({
        let p = slot(c as int, packed.rlt().table()[r as int] as int, n);
        &&& r < packed.rlt().table().len()
        &&& 0 <= p < packed.array().len()
        &&& packed.array()[p] == v
    }) by {
        let k = choose|k: int|
            0 <= k < a.rows().len() && #[trigger] a.row_indices()[k] == r
                && a.rows()[k].holds(c, v);
        let row = a.rows()[k];
        let q = choose|q: int| 0 <= q < row.cols().len() && #[trigger] row.cols()[q] == c
            && row.vals()[q] == v;
        assert(listed(a.order(), k));
        let x = choose|x: int| 0 <= x < a.order().len() && #[trigger] a.order()[x] == k;
        assert(a.by_size()[x] == (r, row));
        assert(r <= a.last_row_index()) by {
            if k < a.row_indices().len() - 1 {
                assert(a.row_indices()[k] < a.row_indices()[a.row_indices().len() - 1]);
            }
        }
        assert(packed.rlt().table()[a.by_size()[x].0 as int] == ds[x]);
        lemma_mod_bound(c + ds[x], n);
        assert(packed.array()[slot(a.by_size()[x].1.cols()[q] as int, ds[x], n)]
            == a.by_size()[x].1.vals()[q]);
    }
}

/// The ordinals of the packed array, each less one.
pub open spec fn ordinals_less_one(packed: OneDPackedArray) -> Seq<int> {
    Seq::new(packed.array().len(), |p: int| packed.array()[p] as int - 1)
}

// The slot of the cell that holds ordinal `v`.
spec fn slot_of_ordinal(packed: OneDPackedArray, a: TwoDArray, v: usize) -> int {
    let (r, c) = choose|r: usize, c: usize| a.holds(r, c, v);
    slot(c as int, packed.rlt().table()[r as int] as int, a.num_entries() as int)
}

/// The packed array holds the ordinals from 1 to the number of entries,
/// each in one slot, and no slot is left at zero.
pub proof fn lemma_array_is_full(packed: OneDPackedArray, a: TwoDArray, ds: Seq<int>)
    requires
        a.wf(),
        pack_all(a) == Packing::Packed(ds),
        packed.holds_packing(a, ds),
    ensures
        is_permutation(ordinals_less_one(packed)),
{
    let n = a.num_entries() as int;
    let array = packed.array();
    let values = ordinals_less_one(packed);
    let slots = Seq::new(n as nat, |i: int| slot_of_ordinal(packed, a, (i + 1) as usize));
    lemma_cells_in_slots(packed, a, ds);
    // Every ordinal stands in the slot of its cell.
    assert forall|i: int| 0 <= i < n implies 0 <= #[trigger] slots[i] < n && array[slots[i]] == i
        + 1 by {
        let v = (i + 1) as usize;
        assert(a.has_ordinal(v));
        let (r, c) = choose|r: usize, c: usize| a.holds(r, c, v);
        assert(a.holds(r, c, v));
    }
    assert forall|i: int, j: int| 0 <= i < j < slots.len() implies slots[i] != slots[j] by {
        assert(array[slots[i]] == i + 1);
        assert(array[slots[j]] == j + 1);
    }
    lemma_pigeonhole(slots);
    // So every slot is the slot of the ordinal that stands in it.
    assert forall|p: int| 0 <= p < n implies 0 <= #[trigger] values[p] < n && slots[values[p]]
        == p by {
        assert(slots.contains(p));
        let i = choose|i: int| 0 <= i < slots.len() && slots[i] == p;
        assert(array[slots[i]] == i + 1);
    }
    assert forall|p: int, q: int| 0 <= p < q < values.len() implies values[p] != values[q] by {
        assert(slots[values[p]] == p);
        assert(slots[values[q]] == q);
    }
    assert forall|i: int| 0 <= i < values.len() implies #[trigger] values.contains(i) by {
        assert(values[slots[i]] == i);
    }
}

/// Placing one more row keeps what holds of the rows placed before it.
proof fn lemma_placed(
    a: TwoDArray,
    before: OneDPackedArray,
    after: OneDPackedArray,
    used_before: Seq<bool>,
    used_after: Seq<bool>,
    ds: Seq<int>,
    d: int,
)
    requires
        a.wf(),
        0 < a.num_entries(),
        ds.len() < a.by_size().len(),
        before.holds_rows(a, ds, ds.len() as int),
        used_before.len() == a.num_entries(),
        used_after.len() == a.num_entries(),
        marks(used_before) == taken(cols_by_size(a), ds, a.num_entries() as int),
        fits(
            cols_by_size(a)[ds.len() as int],
            d,
            a.num_entries() as int,
            taken(cols_by_size(a), ds, a.num_entries() as int),
        ),
        after.array().len() == a.num_entries(),
        a.by_size()[ds.len() as int].0 < before.rlt().table().len(),
        after.rlt().table() == before.rlt().table().update(a.by_size()[ds.len() as int].0 as int, d as isize),
        isize::MIN <= d <= isize::MAX,
        forall|p: int|
            0 <= p < a.num_entries() ==> #[trigger] used_after[p] == (used_before[p] || falls_on(
                cols_by_size(a)[ds.len() as int],
                d,
                a.num_entries() as int,
                p,
            )),
        forall|i: int|
            0 <= i < cols_by_size(a)[ds.len() as int].len() ==> after.array()[#[trigger] slot(
                cols_by_size(a)[ds.len() as int][i] as int,
                d,
                a.num_entries() as int,
            )] == a.by_size()[ds.len() as int].1.vals()[i],
        forall|p: int|
            0 <= p < a.num_entries() && !falls_on(
                cols_by_size(a)[ds.len() as int],
                d,
                a.num_entries() as int,
                p,
            ) ==> #[trigger] after.array()[p] == before.array()[p],
    ensures
        after.holds_rows(a, ds.push(d), ds.len() as int + 1),
        marks(used_after) == taken(cols_by_size(a), ds.push(d), a.num_entries() as int),
{
    let n = a.num_entries() as int;
    let k = ds.len() as int;
    let rows = a.by_size();
    let all_cols = cols_by_size(a);
    let cols = all_cols[k];
    let longer = ds.push(d);
    let in_use = taken(all_cols, ds, n);
    let more = taken(all_cols, longer, n);
    assert(cols == rows[k].1.cols());

    assert forall|p: int| more.contains(p) <==> marks(used_after).contains(p) by {
        if more.contains(p) {
            let j = choose|j: int| 0 <= j < longer.len()
                && #[trigger] falls_on(all_cols[j], longer[j], n, p);
            if j < k {
                assert(falls_on(all_cols[j], ds[j], n, p));
                assert(in_use.contains(p));
                assert(marks(used_before).contains(p));
            } else {
                let i = choose|i: int|
                    0 <= i < cols.len() && #[trigger] slot(cols[i] as int, d, n) == p;
                lemma_mod_bound(cols[i] + d, n);
            }
        }
        if marks(used_after).contains(p) {
            if used_before[p] {
                assert(marks(used_before).contains(p));
                let j = choose|j: int| 0 <= j < ds.len()
                    && #[trigger] falls_on(all_cols[j], ds[j], n, p);
                assert(falls_on(all_cols[j], longer[j], n, p));
            } else {
                assert(falls_on(all_cols[k], longer[k], n, p));
            }
        }
    }
    assert(more =~= marks(used_after));

    // What lies in a slot of a row placed before is not touched.
    assert forall|p: int| in_use.contains(p) implies !falls_on(cols, d, n, p) by {
        if falls_on(cols, d, n, p) {
            let i = choose|i: int|
                0 <= i < cols.len() && #[trigger] slot(cols[i] as int, d, n) == p;
            assert(!in_use.contains(slot(cols[i] as int, d, n)));
        }
    }
    assert forall|j: int, i: int| 0 <= j < k + 1 && 0 <= i < rows[j].1.cols().len() implies
        after.array()[#[trigger] slot(
        rows[j].1.cols()[i] as int,
        longer[j],
        n,
    )] == rows[j].1.vals()[i] by {
        if j < k {
            let p = slot(rows[j].1.cols()[i] as int, ds[j], n);
            lemma_mod_bound(rows[j].1.cols()[i] + ds[j], n);
            assert(all_cols[j] == rows[j].1.cols());
            assert(falls_on(all_cols[j], ds[j], n, p));
            assert(in_use.contains(p));
            assert(after.array()[p] == before.array()[p]);
        }
    }
    assert forall|p: int| 0 <= p < n && !more.contains(p) implies
        #[trigger] after.array()[p] == 0 by {
        if in_use.contains(p) {
            let j = choose|j: int| 0 <= j < ds.len()
                && #[trigger] falls_on(all_cols[j], ds[j], n, p);
            assert(falls_on(all_cols[j], longer[j], n, p));
        }
        if falls_on(cols, d, n, p) {
            assert(falls_on(all_cols[k], longer[k], n, p));
        }
        assert(after.array()[p] == before.array()[p]);
    }
    let table = before.rlt().table();
    let row_index = rows[k].0;
    assert forall|j: int| 0 <= j < k + 1 implies
        after.rlt().table()[(#[trigger] rows[j]).0 as int] == longer[j] by {
        if j < k {
            lemma_indices_differ(a, j, k);
            assert(table[rows[j].0 as int] == ds[j]);
        }
    }
    assert forall|r: int| 0 <= r < after.rlt().table().len()
        && !is_index_of(rows, k + 1, r) implies #[trigger] after.rlt().table()[r] == 0 by {
        if r == row_index {
            assert(rows[k].0 == r);
        }
        if is_index_of(rows, k, r) {
            let j = choose|j: int| 0 <= j < k && (#[trigger] rows[j]).0 == r;
            assert(rows[j].0 == r);
        }
        assert(table[r] == 0);
    }
}

/// Two rows that are packed one after the other have different indices.
pub proof fn lemma_indices_differ(a: TwoDArray, x: int, y: int)
    requires
        a.wf(),
        0 <= x < y < a.by_size().len(),
    ensures
        a.by_size()[x].0 != a.by_size()[y].0,
{
    let ox = a.order()[x] as int;
    let oy = a.order()[y] as int;
    assert(precedes(a.rows(), ox, oy));
    if ox < oy {
        assert(a.row_indices()[ox] < a.row_indices()[oy]);
    } else if oy < ox {
        assert(a.row_indices()[oy] < a.row_indices()[ox]);
    }
}

/// Whether `p` is one of the slots `slots[from]`, `slots[from + 1]`, ..
pub open spec fn among(slots: Seq<usize>, from: int, p: int) -> bool {
    exists|j: int| from <= j < slots.len() && #[trigger] slots[j] == p
}

/// The flags `after` are the flags `before`, with the slots from
/// `slots[from]` on flagged besides.
pub open spec fn flagged(before: Seq<bool>, slots: Seq<usize>, from: int, after: Seq<bool>) -> bool {
    &&& after.len() == before.len()
    &&& forall|p: int| 0 <= p < before.len() ==>
        #[trigger] after[p] == (before[p] || among(slots, from, p))
}

/// The slots are slots of the array that are not flagged in `before`, and
/// no two of them are the same.
pub open spec fn unflagged(before: Seq<bool>, slots: Seq<usize>) -> bool {
    &&& forall|j: int| 0 <= j < slots.len() ==>
        (#[trigger] slots[j]) < before.len() && !before[slots[j] as int]
    &&& forall|j: int, l: int| 0 <= j < l < slots.len() ==>
        #[trigger] slots[j] != #[trigger] slots[l]
}

/// `slots` are the slots on which the first columns of `cols` fall when
/// they are shifted by `d`, and they can be taken: none is flagged in
/// `before`, and no two of them are the same.
pub open spec fn claimed(before: Seq<bool>, cols: Seq<usize>, d: int, slots: Seq<usize>) -> bool {
    &&& slots.len() <= cols.len()
    &&& forall|j: int| 0 <= j < slots.len() ==>
        #[trigger] slots[j] == slot(cols[j] as int, d, before.len() as int)
    &&& unflagged(before, slots)
}

// A row whose columns all have their slot fits, and its slots are those
// on which its columns fall.
proof fn lemma_claimed(before: Seq<bool>, cols: Seq<usize>, d: int, slots: Seq<usize>)
    requires
        claimed(before, cols, d, slots),
        slots.len() == cols.len(),
    ensures
        fits(cols, d, before.len() as int, marks(before)),
        forall|p: int| among(slots, 0, p) <==> falls_on(cols, d, before.len() as int, p),
{
    let n = before.len() as int;
    assert forall|j: int| 0 <= j < cols.len() implies !marks(before).contains(
        #[trigger] slot(cols[j] as int, d, n),
    ) by {
        assert(!before[slots[j] as int]);
    }
    assert forall|j: int, l: int| 0 <= j < l < cols.len() implies
        #[trigger] slot(cols[j] as int, d, n)
        != #[trigger] slot(cols[l] as int, d, n) by {
        assert(slots[j] != slots[l]);
    }
    assert forall|p: int| among(slots, 0, p) <==> falls_on(cols, d, n, p) by {
        if among(slots, 0, p) {
            let j = choose|j: int| 0 <= j < slots.len() && #[trigger] slots[j] == p;
            assert(slot(cols[j] as int, d, n) == p);
        }
        if falls_on(cols, d, n, p) {
            let j = choose|j: int|
                0 <= j < cols.len() && #[trigger] slot(cols[j] as int, d, n) == p;
            assert(slots[j] == p);
        }
    }
}

// A row of which a column falls on a slot that is flagged, or on the slot
// of a column before it, does not fit.
proof fn lemma_clash(before: Seq<bool>, cols: Seq<usize>, d: int, slots: Seq<usize>)
    requires
        before.len() > 0,
        claimed(before, cols, d, slots),
        slots.len() < cols.len(),
        before[slot(cols[slots.len() as int] as int, d, before.len() as int)] || among(
            slots,
            0,
            slot(cols[slots.len() as int] as int, d, before.len() as int),
        ),
    ensures
        !fits(cols, d, before.len() as int, marks(before)),
{
    let n = before.len() as int;
    let i = slots.len() as int;
    let p = slot(cols[i] as int, d, n);
    lemma_mod_bound(cols[i] + d, n);
    if before[p] {
        assert(marks(before).contains(slot(cols[i] as int, d, n)));
    } else {
        let j = choose|j: int| 0 <= j < slots.len() && #[trigger] slots[j] == p;
        assert(slot(cols[j] as int, d, n) == slot(cols[i] as int, d, n));
    }
}

// Flags the slots on which the columns fall when they are shifted by
// `rlt_value`, one after the other, as long as the slot is free. Returns the
// slots that were flagged: those of all columns, or those of the columns
// before the first whose slot was not free.
fn claim_slots(used: &mut Vec<bool>, col_indices: &Vec<usize>, rlt_value: isize) -> (slots: Vec<usize>)
    requires
        old(used)@.len() > 0,
    ensures
        claimed(old(used)@, col_indices@, rlt_value as int, slots@),
        flagged(old(used)@, slots@, 0, final(used)@),
        slots@.len() < col_indices@.len() ==> old(used)@[slot(
            col_indices@[slots@.len() as int] as int,
            rlt_value as int,
            old(used)@.len() as int,
        )] || among(
            slots@,
            0,
            slot(col_indices@[slots@.len() as int] as int, rlt_value as int, old(used)@.len() as int),
        ),
{
    let num_entries = used.len();
    let mut slots: Vec<usize> = Vec::with_capacity(col_indices.len());
    let mut i: usize = 0;
    while i < col_indices.len()
        invariant
            i == slots@.len() <= col_indices@.len(),
            num_entries == old(used)@.len() > 0,
            claimed(old(used)@, col_indices@, rlt_value as int, slots@),
            flagged(old(used)@, slots@, 0, used@),
        decreases col_indices.len() - i,
    {
        let adj = OneDPackedArray::adjust_index(col_indices[i], rlt_value, num_entries);
        if used[adj] {
            return slots;
        }
        let ghost flags = used@;
        let ghost earlier = slots@;
        used[adj] = true;
        slots.push(adj);
        proof {
            assert(!among(earlier, 0, adj as int));
            assert forall|p: int| 0 <= p < flags.len() implies
                #[trigger] used@[p] == (old(used)@[p] || among(
                slots@,
                0,
                p,
            )) by {
                if among(earlier, 0, p) {
                    let j = choose|j: int| 0 <= j < earlier.len() && #[trigger] earlier[j] == p;
                    assert(slots@[j] == p);
                }
                if among(slots@, 0, p) && p != adj {
                    let j = choose|j: int| 0 <= j < slots@.len() && #[trigger] slots@[j] == p;
                    assert(earlier[j] == p);
                }
                if p == adj {
                    assert(slots@[i as int] == p);
                }
            }
            assert forall|j: int, l: int| 0 <= j < l < slots@.len() implies #[trigger] slots@[j]
                != #[trigger] slots@[l] by {
                if l == i {
                    assert(earlier[j] == slots@[j]);
                } else {
                    assert(earlier[j] != earlier[l]);
                }
            }
            assert forall|j: int| 0 <= j < slots@.len() implies (#[trigger] slots@[j]) < flags.len()
                && !old(used)@[slots@[j] as int] by {
                if j < i {
                    assert(earlier[j] == slots@[j]);
                }
            }
        }
        i += 1;
    }
    slots
}

// Takes back the flags of the slots, which were set on the flags `before`.
fn release_slots(used: &mut Vec<bool>, slots: &Vec<usize>, Ghost(before): Ghost<Seq<bool>>)
    requires
        unflagged(before, slots@),
        flagged(before, slots@, 0, old(used)@),
    ensures
        final(used)@ == before,
{
    let mut j: usize = 0;
    while j < slots.len()
        invariant
            j <= slots@.len(),
            unflagged(before, slots@),
            flagged(before, slots@, j as int, used@),
        decreases slots.len() - j,
    {
        let ghost flags = used@;
        let t = slots[j];
        used[t] = false;
        proof {
            assert forall|p: int| 0 <= p < before.len() implies
                #[trigger] used@[p] == (before[p] || among(
                slots@,
                j + 1,
                p,
            )) by {
                if among(slots@, j + 1, p) {
                    let l = choose|l: int| j + 1 <= l < slots@.len() && #[trigger] slots@[l] == p;
                    assert(slots@[j as int] != slots@[l]);
                }
                if p != t && among(slots@, j as int, p) {
                    let l = choose|l: int| j <= l < slots@.len() && #[trigger] slots@[l] == p;
                    assert(l != j);
                }
            }
        }
        j += 1;
    }
    assert(used@ =~= before);
}

fn error(message: &str) -> (e: Error)
    ensures
        e@ == KindView::OneDPackedArrayError(message@),
{
    Error::new(Kind::OneDPackedArrayError(String::from_str(message)))
}

impl OneDPackedArray {
    /// The packed array: for every slot the ordinal of the word that has it,
    /// and zero for a slot that no word has.
    pub closed spec fn array(&self) -> Seq<usize> {
        self.array@
    }

    /// The row lookup table.
    pub closed spec fn rlt(&self) -> Rlt {
        self.rlt
    }

    /// The first `upto` rows of `a` are packed with the displacements `ds`:
    /// every cell of theirs has its ordinal in its slot, every other slot
    /// is zero, and the lookup table has the displacement of each
    /// of these rows at the row's index, and zero elsewhere.
    pub open spec fn holds_rows(&self, a: TwoDArray, ds: Seq<int>, upto: int) -> bool {
        let n = a.num_entries() as int;
        let rows = a.by_size();
        &&& self.array().len() == n
        &&& forall|k: int, i: int|
            0 <= k < upto && 0 <= i < rows[k].1.cols().len() ==> self.array()[#[trigger] slot(
                rows[k].1.cols()[i] as int,
                ds[k],
                n,
            )] == rows[k].1.vals()[i]
        &&& forall|p: int|
            0 <= p < n && !taken(cols_by_size(a), ds, n).contains(p) ==>
                #[trigger] self.array()[p] == 0
        &&& self.rlt().table().len() == a.last_row_index() + 1
        &&& forall|k: int| 0 <= k < upto ==>
            self.rlt().table()[(#[trigger] rows[k]).0 as int] == ds[k]
        &&& forall|r: int|
            0 <= r < self.rlt().table().len() && !is_index_of(rows, upto, r) ==>
                #[trigger] self.rlt().table()[r] == 0
    }

    /// The array `a` is packed with the displacements `ds`, and the lookup
    /// table is made for as many words as `a` has entries.
    pub open spec fn holds_packing(&self, a: TwoDArray, ds: Seq<int>) -> bool {
        &&& ds.len() == a.by_size().len()
        &&& self.holds_rows(a, ds, ds.len() as int)
        &&& self.rlt().num_entries() == a.num_entries()
    }

    /// Create a new one dimensional packed array.
    /// The rows of the 2D array are taken by size. Each is shifted by the
    /// least displacement with which it falls on free slots, the search
    /// starting where its first column falls on the first free slot.
    ///
    /// # Errors
    /// Will return `Err` if the array cannot be packed, or if an index does
    /// not fit the lookup table.
    pub fn new(two_d_array: &TwoDArray) -> (r: Result<Self, Error>)
        requires
            two_d_array.wf(),
        ensures
            match pack_all(*two_d_array) {
                Packing::Packed(ds) => r is Ok && r->Ok_0.holds_packing(*two_d_array, ds),
                Packing::Infeasible => r is Err && r->Err_0@ == infeasible_error(),
                Packing::Overflow => r is Err && r->Err_0@ == overflow_error(),
            },
            r is Ok ==> forall|row: usize, c: usize, v: usize| #[trigger]
                two_d_array.holds(row, c, v) ==> r->Ok_0.array()[slot(
                    c as int,
                    r->Ok_0.rlt().table()[row as int] as int,
                    two_d_array.num_entries() as int,
                )] == v,
            r is Ok ==> is_permutation(ordinals_less_one(r->Ok_0)),
    {
        let num_entries = two_d_array.get_num_entries();
        let last_row_index = two_d_array.get_last_row_index();
        if last_row_index == usize::MAX || num_entries > isize::MAX as usize {
            return Err(error("Unexpected index overflow"));
        }
        let mut self_ = OneDPackedArray {
            array: vec![0; num_entries],
            rlt: Rlt::new(last_row_index + 1),
        };
        let mut used: Vec<bool> = vec![false; num_entries];
        // Every slot before this one is taken.
        let mut first_unused: usize = 0;

        let ghost a = *two_d_array;
        let ghost n = num_entries as int;
        let ghost rows = a.by_size();
        let ghost all_cols = cols_by_size(a);
        let ghost mut ds: Seq<int> = Seq::empty();
        proof {
            assert(taken(all_cols, ds, n) =~= marks(used@));
        }

        // Loop through all rows containing one or more values.
        let mut it = RowSizeIterator::new(two_d_array);
        loop
            invariant
                a == *two_d_array,
                a.wf(),
                it.array() == a,
                n == num_entries == a.num_entries(),
                0 < n <= isize::MAX,
                rows == a.by_size(),
                all_cols == cols_by_size(a),
                it.position() == ds.len(),
                ds.len() <= rows.len(),
                pack(all_cols, n, ds.len()) == Packing::Packed(ds),
                used@.len() == n,
                marks(used@) == taken(all_cols, ds, n),
                first_unused <= n,
                forall|p: int| 0 <= p < first_unused ==> used@[p],
                self_.holds_rows(a, ds, ds.len() as int),
                self_.rlt().num_entries() == 0,
                pack_all(a) == pack(all_cols, n, rows.len()),
            ensures
                ds.len() == rows.len(),
                pack(all_cols, n, ds.len()) == Packing::Packed(ds),
                self_.holds_rows(a, ds, ds.len() as int),
                n == num_entries == a.num_entries(),
                pack_all(a) == pack(all_cols, n, rows.len()),
            decreases rows.len() - ds.len(),
        {
            let (row_index, row) = match it.next_biggest() {
                Some(next) => next,
                None => {
                    break ;
                },
            };
            let ghost k = ds.len() as int;
            let ghost cols = row.cols();
            let ghost in_use = taken(all_cols, ds, n);
            proof {
                assert(rows[k] == (row_index, *row));
                assert(all_cols[k] == cols);
                // The row is one of the rows of the array, so it is well
                // formed and not empty, and its index is in range.
                let at = a.order()[k] as int;
                assert(a.rows()[at] == *row);
                assert(a.rows()[at].wf());
                assert(a.row_indices()[at] == row_index);
                assert(row_index <= a.last_row_index()) by {
                    if at < a.row_indices().len() - 1 {
                        assert(a.row_indices()[at] < a.row_indices()[a.row_indices().len() - 1]);
                    }
                }
            }
            let col_indices = row.get_col_indices();
            let first_col = col_indices[0];
            if col_indices[col_indices.len() - 1] > isize::MAX as usize {
                proof {
                    assert(pack(all_cols, n, (k + 1) as nat) == Packing::Overflow);
                    lemma_pack_stuck(all_cols, n, (k + 1) as nat, rows.len());
                }
                return Err(error("Unexpected index overflow"));
            }
            assert(first_col <= isize::MAX) by {
                if cols.len() > 1 {
                    assert(cols[0] < cols[cols.len() - 1]);
                }
            }
            while first_unused < num_entries && used[first_unused]
                invariant
                    first_unused <= num_entries,
                    used@.len() == num_entries,
                    forall|p: int| 0 <= p < first_unused ==> used@[p],
                decreases num_entries - first_unused,
            {
                first_unused += 1;
            }
            proof {
                // A shift that puts the first column before the first free
                // slot puts it on a taken one.
                assert forall|e: int| -cols[0] <= e < first_unused - cols[0] implies
                    !#[trigger] fits(
                    cols,
                    e,
                    n,
                    in_use,
                ) by {
                    lemma_small_mod((cols[0] + e) as nat, n as nat);
                    assert(slot(cols[0] as int, e, n) == cols[0] + e);
                    assert(marks(used@).contains(cols[0] + e));
                }
            }
            if first_unused >= num_entries {
                proof {
                    assert(!placeable(cols, n, in_use)) by {
                        if placeable(cols, n, in_use) {
                            let d = choose|d: int| is_first_fit(cols, d, n, in_use);
                            assert(!fits(cols, d, n, in_use));
                        }
                    }
                    assert(pack(all_cols, n, (k + 1) as nat) == Packing::Infeasible);
                    lemma_pack_stuck(all_cols, n, (k + 1) as nat, rows.len());
                }
                return Err(error("unable to minimally pack array"));
            }
            let mut rlt_value: isize = first_unused as isize - first_col as isize;

            // Try to insert the row into the packed array. Keep shifting the
            // row until it can be inserted.
            let ghost start = self_;
            let ghost start_used = used@;
            loop
                invariant_except_break
                    self_.array() == start.array(),
                    used@ == start_used,
                invariant
                    a == *two_d_array,
                    n == num_entries == a.num_entries(),
                    0 < n <= isize::MAX,
                    rows == a.by_size(),
                    all_cols == cols_by_size(a),
                    0 <= k < rows.len(),
                    k == ds.len(),
                    cols == row.cols(),
                    all_cols[k] == cols,
                    row.wf(),
                    cols.len() > 0,
                    first_col == cols[0],
                    first_col <= isize::MAX,
                    cols.last() <= isize::MAX,
                    in_use == taken(all_cols, ds, n),
                    pack(all_cols, n, ds.len()) == Packing::Packed(ds),
                    start_used.len() == n,
                    start.array().len() == n,
                    marks(start_used) == in_use,
                    0 <= first_col + rlt_value < n,
                    forall|e: int| -cols[0] <= e < rlt_value ==>
                        !#[trigger] fits(cols, e, n, in_use),
                    self_.rlt() == start.rlt(),
                    pack_all(a) == pack(all_cols, n, rows.len()),
                ensures
                    is_first_fit(cols, rlt_value as int, n, in_use),
                    used@.len() == n,
                    self_.array().len() == n,
                    self_.rlt() == start.rlt(),
                    forall|p: int|
                        0 <= p < n ==> #[trigger] used@[p] == (start_used[p] || falls_on(
                            cols,
                            rlt_value as int,
                            n,
                            p,
                        )),
                    forall|i: int|
                        0 <= i < cols.len() ==> self_.array()[#[trigger] slot(
                            cols[i] as int,
                            rlt_value as int,
                            n,
                        )] == row.vals()[i],
                    forall|p: int|
                        0 <= p < n && !falls_on(cols, rlt_value as int, n, p) ==>
                            #[trigger] self_.array()[p]
                            == start.array()[p],
                decreases n - (first_col + rlt_value),
            {
                let rejected = self_.not_inserted(&mut used, row, rlt_value);
                if !rejected {
                    break ;
                }
                assert(!fits(cols, rlt_value as int, n, in_use));
                rlt_value += 1;
                assert forall|e: int| -cols[0] <= e < rlt_value implies
                    !#[trigger] fits(cols, e, n, in_use) by {}
                if rlt_value + first_col as isize >= num_entries as isize {
                    proof {
                        assert(!placeable(cols, n, in_use)) by {
                            if placeable(cols, n, in_use) {
                                let d = choose|d: int| is_first_fit(cols, d, n, in_use);
                                assert(!fits(cols, d, n, in_use));
                            }
                        }
                        assert(pack(all_cols, n, (k + 1) as nat) == Packing::Infeasible);
                        lemma_pack_stuck(all_cols, n, (k + 1) as nat, rows.len());
                    }
                    return Err(error("unable to minimally pack array"));
                }
            }

            // Record how much the row was shifted in the row lookup table.
            self_.rlt.insert(row_index, rlt_value);
            proof {
                let d = rlt_value as int;
                let longer = ds.push(d);
                lemma_first_fit_unique(cols, d, n, in_use);
                assert(pack(all_cols, n, (k + 1) as nat) == Packing::Packed(longer));
                lemma_placed(a, start, self_, start_used, used@, ds, d);
                ds = longer;
            }
        }
        self_.rlt.set_num_entries(num_entries);
        proof {
            lemma_cells_in_slots(self_, a, ds);
            lemma_array_is_full(self_, a, ds);
        }
        Ok(self_)
    }

    /// Get the row lookup table for the packed array.
    pub fn get_rlt(&self) -> (rlt: &Rlt)
        ensures
            *rlt == self.rlt(),
    {
        &self.rlt
    }

    /// Get the packed array.
    pub fn get_array(&self) -> (array: &Vec<usize>)
        ensures
            array@ == self.array(),
    {
        &self.array
    }

    /// Is the packed array empty.
    pub fn is_empty(&self) -> (b: bool)
        ensures
            b == (self.array().len() == 0),
    {
        self.array.len() == 0
    }

    /// Attempt to insert a row into the packed array.
    ///
    /// The row is shifted by the given amount. It is inserted if none of
    /// its columns then falls on a slot that is in use, and no two of them
    /// fall on one slot. Its values are then written to the slots of their
    /// columns, and the slots are flagged as used.
    ///
    /// Returns true if the row was not inserted; nothing is changed then.
    fn not_inserted(&mut self, used: &mut Vec<bool>, row: &Row, rlt_value: isize) -> (rejected: bool)
        requires
            row.wf(),
            old(used)@.len() == old(self).array().len(),
            old(self).array().len() > 0,
        ensures
            rejected == !fits(
                row.cols(),
                rlt_value as int,
                old(self).array().len() as int,
                marks(old(used)@),
            ),
            final(self).rlt() == old(self).rlt(),
            final(self).array().len() == old(self).array().len(),
            final(used)@.len() == old(used)@.len(),
            rejected ==> final(self).array() == old(self).array() && final(used)@ == old(used)@,
            !rejected ==> {
                let n = old(self).array().len() as int;
                &&& forall|p: int|
                    0 <= p < n ==> #[trigger] final(used)@[p] == (old(used)@[p] || falls_on(
                        row.cols(),
                        rlt_value as int,
                        n,
                        p,
                    ))
                &&& forall|i: int|
                    0 <= i < row.cols().len() ==> final(self).array()[#[trigger] slot(
                        row.cols()[i] as int,
                        rlt_value as int,
                        n,
                    )] == row.vals()[i]
                &&& forall|p: int|
                    0 <= p < n && !falls_on(row.cols(), rlt_value as int, n, p)
                        ==> #[trigger] final(self).array()[p] == old(self).array()[p]
            },
    {
        let col_indices = row.get_col_indices();
        let ghost n = self.array@.len() as int;
        let ghost d = rlt_value as int;
        let ghost cols = row.cols();

        // Adjust the row's column indices by the row lookup table value,
        // and flag the slots they fall on as long as these are free.
        let adj_col_indices = claim_slots(used, &col_indices, rlt_value);

        // Sanity check the adjusted column indices.
        if adj_col_indices.len() != col_indices.len() {
            proof {
                lemma_clash(old(used)@, cols, d, adj_col_indices@);
            }
            release_slots(used, &adj_col_indices, Ghost(old(used)@));
            return true;
        }
        proof {
            lemma_claimed(old(used)@, cols, d, adj_col_indices@);
        }

        // Insert the row's values into the packed array at the adjusted
        // column indices.
        let col_values = row.get_col_values();
        let mut i: usize = 0;
        while i < col_values.len()
            invariant
                i <= cols.len(),
                col_values@ == row.vals(),
                cols == row.cols(),
                row.vals().len() == cols.len(),
                adj_col_indices@.len() == cols.len(),
                claimed(old(used)@, cols, d, adj_col_indices@),
                n == self.array@.len() == old(used)@.len(),
                self.rlt == old(self).rlt,
                forall|j: int|
                    0 <= j < i ==> self.array@[#[trigger] adj_col_indices@[j] as int]
                        == row.vals()[j],
                forall|p: int|
                    0 <= p < n && !falls_on(cols, d, n, p) ==>
                        #[trigger] self.array@[p] == old(self).array@[p],
            decreases col_values.len() - i,
        {
            let adj = adj_col_indices[i];
            let ghost filled = self.array@;
            self.array[adj] = col_values[i];
            proof {
                assert forall|j: int| 0 <= j < i + 1 implies
                    self.array@[#[trigger] adj_col_indices@[j] as int]
                    == row.vals()[j] by {
                    if j < i {
                        assert(adj_col_indices@[j] != adj_col_indices@[i as int]);
                        assert(filled[adj_col_indices@[j] as int] == row.vals()[j]);
                    }
                }
                assert forall|p: int| 0 <= p < n && !falls_on(cols, d, n, p) implies
                    #[trigger] self.array@[p]
                    == old(self).array@[p] by {
                    if p == adj {
                        assert(slot(cols[i as int] as int, d, n) == p);
                    }
                }
            }
            i += 1;
        }
        proof {
            assert forall|j: int| 0 <= j < cols.len() implies
                self.array@[#[trigger] slot(cols[j] as int, d, n)]
                == row.vals()[j] by {
                assert(self.array@[adj_col_indices@[j] as int] == row.vals()[j]);
            }
        }
        false
    }

    /// Adjust an index by the given amount.
    /// The amount is added to the index, and the sum is wrapped around the
    /// given number of entries: the result is the residue of the sum that
    /// is not negative, whatever the sign of the sum.
    pub fn adjust_index(index: usize, adj: isize, num_entries: usize) -> (adjusted: usize)
        requires
            num_entries > 0,
        ensures
            adjusted == slot(index as int, adj as int, num_entries as int),
            adjusted < num_entries,
    {
        proof {
            lemma_mod_bound(index + adj, num_entries as int);
        }
        if adj >= 0 {
            let sum: u128 = index as u128 + adj as u128;
            (sum % (num_entries as u128)) as usize
        } else {
            let back: usize = (-(adj + 1)) as usize + 1;
            if index >= back {
                (index - back) % num_entries
            } else {
                // The sum is negative: it is as far before a multiple of the
                // number of entries as its magnitude is behind one.
                let behind = (back - index) % num_entries;
                proof {
                    lemma_negative_residue(back - index, num_entries as int);
                }
                if behind == 0 {
                    0
                } else {
                    num_entries - behind
                }
            }
        }
    }
}

} // verus!
