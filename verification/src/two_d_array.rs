//! The sparse two-dimensional array in which every word has one cell: its
//! row is given by the first sub-hash, its column by the second.

use vstd::prelude::*;
use vstd::string::*;
use crate::error::{Error, Kind, KindView};
use crate::hash_algorithm::HashAlgorithm;
use crate::word_list::WordList;

verus! {

/// A row in the 2D array: its used columns in ascending order, each with the
/// ordinal of the word that sits there.
#[derive(Debug)]
pub struct Row {
    cols: Vec<usize>,
    vals: Vec<usize>,
}

/// A 2D array that is used to store the indices of the words in the word list.
#[derive(Debug)]
pub struct TwoDArray {
    // The indices of the rows in use, ascending.
    row_keys: Vec<usize>,
    // The rows, in the order of their indices.
    rows: Vec<Row>,
    // The positions of the rows in `rows`, sorted by the number of entries in
    // the row.
    rows_by_size: Vec<usize>,
    // The number of entries in the array.
    num_entries: usize,
    // The number of rows in the array.
    num_rows: usize,
    // The index of the last row in the array.
    last_row_index: usize,
}

/// Iterator for the rows of a 2D array sorted by size.
#[derive(Debug)]
pub struct RowSizeIterator<'a> {
    // The 2D array to iterate over.
    two_d_array: &'a TwoDArray,
    // The current index of the iterator.
    index: usize,
}

/// Each element is smaller than the next.
pub open spec fn ascending(s: Seq<usize>) -> bool {
    forall|i: int, j: int| 0 <= i < j < s.len() ==> s[i] < s[j]
}

/// Whether the row at position `a` comes before the row at position `b`
/// when rows are taken by size: the fuller row first, and of two rows that
/// are equally full the one with the smaller index, which is the one that
/// stands first.
pub open spec fn precedes(rows: Seq<Row>, a: int, b: int) -> bool {
    rows[a].cols().len() > rows[b].cols().len() || (rows[a].cols().len() == rows[b].cols().len()
        && a < b)
}

/// Whether position `k` occurs in `order`.
pub open spec fn listed(order: Seq<usize>, k: int) -> bool {
    exists|x: int| 0 <= x < order.len() && #[trigger] order[x] == k
}

/// `order` lists every position of `rows` once, the fuller rows first.
pub open spec fn ordered_by_size(rows: Seq<Row>, order: Seq<usize>) -> bool {
    &&& order.len() == rows.len()
    &&& forall|x: int| 0 <= x < order.len() ==> #[trigger] order[x] < rows.len()
    &&& forall|x: int, y: int|
        0 <= x < y < order.len() ==>
            precedes(rows, #[trigger] order[x] as int, #[trigger] order[y] as int)
    &&& forall|k: int| 0 <= k < rows.len() ==> #[trigger] listed(order, k)
}

/// Whether, in the rows `rows` with the indices `keys`, the cell in row `r`
/// and column `c` holds ordinal `v`.
pub open spec fn grid_holds(keys: Seq<usize>, rows: Seq<Row>, r: usize, c: usize, v: usize) -> bool {
    exists|k: int| 0 <= k < rows.len() && #[trigger] keys[k] == r && rows[k].holds(c, v)
}

/// Every row has its index, no index occurs twice, and no row is empty.
pub open spec fn grid_wf(keys: Seq<usize>, rows: Seq<Row>) -> bool {
    &&& keys.len() == rows.len()
    &&& ascending(keys)
    &&& forall|k: int| 0 <= k < rows.len() ==> (#[trigger] rows[k]).wf() && rows[k].cols().len() > 0
}

/// The error with which hashing `word` ends, if either sub-hash fails: that
/// of the first sub-hash where it fails, else that of the second.
pub open spec fn hash_failure<H: HashAlgorithm>(hash_algorithm: &H, word: Seq<char>) -> Option<KindView> {
    match hash_algorithm.spec_h1(word) {
        Err(e) => Some(e),
        Ok(_) => match hash_algorithm.spec_h2(word) {
            Err(e) => Some(e),
            Ok(_) => None,
        },
    }
}

/// Both sub-hashes succeed on every word.
pub open spec fn hashable<H: HashAlgorithm>(hash_algorithm: &H, words: Seq<Seq<char>>) -> bool {
    forall|i: int| 0 <= i < words.len() ==>
        hash_failure(hash_algorithm, #[trigger] words[i]) is None
}

/// Word `i` is the first on which a sub-hash fails.
pub open spec fn first_unhashable<H: HashAlgorithm>(
    hash_algorithm: &H,
    words: Seq<Seq<char>>,
    i: int,
) -> bool {
    &&& 0 <= i < words.len()
    &&& hash_failure(hash_algorithm, words[i]) is Some
    &&& hashable(hash_algorithm, words.take(i))
}

/// The first word on which a sub-hash fails, in a list that has one.
pub open spec fn first_unhashable_index<H: HashAlgorithm>(hash_algorithm: &H, words: Seq<Seq<char>>) -> int {
    choose|i: int| first_unhashable(hash_algorithm, words, i)
}

/// The error for a list with a word on which a sub-hash fails: the failure
/// of the first such word.
pub open spec fn hashing_error<H: HashAlgorithm>(hash_algorithm: &H, words: Seq<Seq<char>>) -> KindView {
    hash_failure(hash_algorithm, words[first_unhashable_index(hash_algorithm, words)])->Some_0
}

/// The row and the column of a word that both sub-hashes accept.
pub open spec fn cell_of<H: HashAlgorithm>(hash_algorithm: &H, word: Seq<char>) -> (usize, usize) {
    (hash_algorithm.spec_h1(word)->Ok_0, hash_algorithm.spec_h2(word)->Ok_0)
}

/// The cells of the words, in the order of the words.
pub open spec fn cells_of<H: HashAlgorithm>(hash_algorithm: &H, words: Seq<Seq<char>>) -> Seq<
    (usize, usize),
> {
    Seq::new(words.len(), |i: int| cell_of(hash_algorithm, words[i]))
}

/// No two of the cells are the same.
pub open spec fn collision_free(cells: Seq<(usize, usize)>) -> bool {
    forall|i: int, j: int| 0 <= i < j < cells.len() ==> cells[i] != cells[j]
}

/// Cell `j` is the first that falls on an earlier one, and `i` is that
/// earlier one.
pub open spec fn first_collision(cells: Seq<(usize, usize)>, i: int, j: int) -> bool {
    &&& 0 <= i < j < cells.len()
    &&& cells[i] == cells[j]
    &&& collision_free(cells.take(j))
}

/// The message of the error for two words that share a cell.
pub open spec fn collision_message(earlier: Seq<char>, later: Seq<char>) -> Seq<char> {
    "Collision: "@ + earlier + " === "@ + later
}

/// The first collision among cells that are not free of them: the earlier
/// cell, then the later one.
pub open spec fn first_collision_pair(cells: Seq<(usize, usize)>) -> (int, int) {
    choose|i: int, j: int| first_collision(cells, i, j)
}

/// The error for words whose cells are not free of collisions: it names the
/// two words of the first collision.
pub open spec fn collision_error(words: Seq<Seq<char>>, cells: Seq<(usize, usize)>) -> KindView {
    let (i, j) = first_collision_pair(cells);
    KindView::TwoDArrayError(collision_message(words[i], words[j]))
}

// The position of the first element that is not smaller than `x`.
fn lower_bound(v: &Vec<usize>, x: usize) -> (at: usize)
    requires
        ascending(v@),
    ensures
        at <= v@.len(),
        forall|q: int| 0 <= q < at ==> v@[q] < x,
        forall|q: int| at <= q < v@.len() ==> v@[q] >= x,
{
    let mut low: usize = 0;
    let mut high: usize = v.len();
    while low < high
        invariant
            low <= high <= v@.len(),
            ascending(v@),
            forall|q: int| 0 <= q < low ==> v@[q] < x,
            forall|q: int| high <= q < v@.len() ==> v@[q] >= x,
        decreases high - low,
    {
        let mid = low + (high - low) / 2;
        if v[mid] < x {
            assert forall|q: int| 0 <= q < mid + 1 implies v@[q] < x by {
                if q < mid {
                    assert(v@[q] < v@[mid as int]);
                }
            }
            low = mid + 1;
        } else {
            assert forall|q: int| mid <= q < v@.len() implies v@[q] >= x by {
                if mid < q {
                    assert(v@[mid as int] < v@[q]);
                }
            }
            high = mid;
        }
    }
    low
}

fn copy_of(v: &Vec<usize>) -> (out: Vec<usize>)
    ensures
        out@ == v@,
{
    let mut out: Vec<usize> = Vec::with_capacity(v.len());
    let mut i: usize = 0;
    while i < v.len()
        invariant
            i <= v.len(),
            out@ == v@.take(i as int),
        decreases v.len() - i,
    {
        out.push(v[i]);
        assert(v@.take(i + 1) =~= v@.take(i as int).push(v@[i as int]));
        i += 1;
    }
    assert(v@.take(i as int) =~= v@);
    out
}

impl Row {
    /// The used column indices, ascending.
    pub closed spec fn cols(&self) -> Seq<usize> {
        self.cols@
    }

    /// The word ordinals, in the order of their columns.
    pub closed spec fn vals(&self) -> Seq<usize> {
        self.vals@
    }

    /// Every column has its ordinal, and no column occurs twice.
    pub open spec fn wf(&self) -> bool {
        &&& self.cols().len() == self.vals().len()
        &&& ascending(self.cols())
    }

    /// Whether the cell in column `c` holds ordinal `v`.
    pub open spec fn holds(&self, c: usize, v: usize) -> bool {
        exists|p: int| 0 <= p < self.cols().len() && #[trigger] self.cols()[p] == c
            && self.vals()[p] == v
    }

    /// Whether column `c` is in use.
    pub open spec fn has_col(&self, c: usize) -> bool {
        exists|p: int| 0 <= p < self.cols().len() && #[trigger] self.cols()[p] == c
    }

    /// Get the used column indices in the row, in ascending order.
    pub fn get_col_indices(&self) -> (indices: Vec<usize>)
        ensures
            indices@ == self.cols(),
            self.wf() ==> ascending(indices@),
    {
        copy_of(&self.cols)
    }

    /// Get the column values in the row, in the order of their columns.
    pub fn get_col_values(&self) -> (values: Vec<usize>)
        ensures
            values@ == self.vals(),
            self.wf() ==> forall|i: int|
                0 <= i < values@.len() ==> self.holds(self.cols()[i], #[trigger] values@[i]),
    {
        copy_of(&self.vals)
    }

    fn empty() -> (row: Row)
        ensures
            row.wf(),
            row.cols().len() == 0,
    {
        Row { cols: Vec::new(), vals: Vec::new() }
    }

    fn len(&self) -> (n: usize)
        ensures
            n == self.cols().len(),
    {
        self.cols.len()
    }

    // Puts ordinal `v` in column `c`. Where the column was in use, the
    // ordinal that was there is returned.
    fn insert(&mut self, c: usize, v: usize) -> (prior: Option<usize>)
        requires
            old(self).wf(),
        ensures
            final(self).wf(),
            match prior {
                Some(w) => old(self).holds(c, w) && final(self).cols() == old(self).cols(),
                None => {
                    &&& forall|w: usize| !old(self).holds(c, w)
                    &&& final(self).cols().len() == old(self).cols().len() + 1
                    &&& forall|d: usize, w: usize|
                        final(self).holds(d, w) <==> (old(self).holds(d, w) || (d == c && w == v))
                },
            },
    {
        let p = lower_bound(&self.cols, c);
        if p < self.cols.len() && self.cols[p] == c {
            let w = self.vals[p];
            self.vals[p] = v;
            Some(w)
        } else {
            self.cols.insert(p, c);
            self.vals.insert(p, v);
            proof {
                let oc = old(self).cols();
                let ov = old(self).vals();
                let nc = self.cols();
                let nv = self.vals();
                assert(oc.len() == ov.len());
                assert(nc == oc.insert(p as int, c));
                assert(nv == ov.insert(p as int, v));
                assert(nc.len() == oc.len() + 1);
                assert(nc[p as int] == c && nv[p as int] == v);
                assert forall|q: int| 0 <= q < p implies nc[q] == oc[q] && nv[q] == ov[q] by {}
                assert forall|q: int| p <= q < oc.len() implies nc[q + 1] == oc[q] && nv[q + 1]
                    == ov[q] by {}
                assert forall|w: usize| !old(self).holds(c, w) by {
                    if old(self).holds(c, w) {
                        let q = choose|q: int|
                            0 <= q < oc.len() && #[trigger] oc[q] == c && ov[q] == w;
                        if q >= p {
                            assert(oc[p as int] <= oc[q]);
                        }
                    }
                }
                assert forall|d: usize, w: usize| self.holds(d, w) implies
                    old(self).holds(d, w) || (d == c && w == v) by {
                    let q = choose|q: int| 0 <= q < nc.len() && #[trigger] nc[q] == d && nv[q] == w;
                    if q < p {
                        assert(0 <= q < oc.len() && oc[q] == d && ov[q] == w);
                        assert(old(self).holds(d, w));
                    } else if q > p {
                        assert(nc[(q - 1) + 1] == oc[q - 1] && nv[(q - 1) + 1] == ov[q - 1]);
                        assert(0 <= q - 1 < oc.len() && oc[q - 1] == d && ov[q - 1] == w);
                        assert(old(self).holds(d, w));
                    }
                }
                assert forall|d: usize, w: usize|
                    old(self).holds(d, w) || (d == c && w == v) implies self.holds(d, w) by {
                    if old(self).holds(d, w) {
                        let q = choose|q: int|
                            0 <= q < oc.len() && #[trigger] oc[q] == d && ov[q] == w;
                        if q < p {
                            assert(0 <= q < nc.len() && nc[q] == d && nv[q] == w);
                            assert(self.holds(d, w));
                        } else {
                            assert(0 <= q + 1 < nc.len() && nc[q + 1] == d && nv[q + 1] == w);
                            assert(self.holds(d, w));
                        }
                    } else {
                        assert(0 <= p < nc.len() && nc[p as int] == d && nv[p as int] == w);
                        assert(self.holds(d, w));
                    }
                }
                assert forall|i: int, j: int| 0 <= i < j < nc.len() implies nc[i] < nc[j] by {
                    let oi = if i < p { i } else { i - 1 };
                    let oj = if j < p { j } else { j - 1 };
                    if i != p && j != p {
                        assert(oc[oi] < oc[oj]);
                        assert(nc[i] == oc[oi] && nc[j] == oc[oj]);
                    } else if i == p {
                        assert(oc[p as int] <= oc[oj]);
                        assert(nc[j] == oc[oj]);
                    } else {
                        assert(nc[i] == oc[oi]);
                    }
                }
            }
            None
        }
    }
}

// The positions of `rows`, the fuller rows first.
fn order_by_size(rows: &Vec<Row>) -> (order: Vec<usize>)
    ensures
        ordered_by_size(rows@, order@),
{
    let mut order: Vec<usize> = Vec::with_capacity(rows.len());
    let mut k: usize = 0;
    while k < rows.len()
        invariant
            k <= rows.len(),
            order@.len() == k,
            forall|x: int| 0 <= x < order@.len() ==> #[trigger] order@[x] < k,
            forall|x: int, y: int|
                0 <= x < y < order@.len() ==>
                    precedes(rows@, #[trigger] order@[x] as int, #[trigger] order@[y] as int),
            forall|j: int| 0 <= j < k ==> #[trigger] listed(order@, j),
        decreases rows.len() - k,
    {
        // A row goes behind every row that is at least as full: all of
        // those have a smaller index.
        let size = rows[k].len();
        let mut at: usize = 0;
        let mut end: usize = order.len();
        while at < end
            invariant
                at <= end <= order@.len(),
                order@.len() == k,
                k < rows.len(),
                size == rows@[k as int].cols().len(),
                forall|x: int| 0 <= x < order@.len() ==> #[trigger] order@[x] < k,
                forall|x: int, y: int|
                    0 <= x < y < order@.len() ==> precedes(
                        rows@,
                        #[trigger] order@[x] as int,
                        #[trigger] order@[y] as int,
                    ),
                forall|x: int| 0 <= x < at ==>
                    rows@[#[trigger] order@[x] as int].cols().len() >= size,
                forall|x: int| end <= x < order@.len() ==>
                    rows@[#[trigger] order@[x] as int].cols().len() < size,
            decreases end - at,
        {
            let mid = at + (end - at) / 2;
            if rows[order[mid]].len() >= size {
                assert forall|x: int| 0 <= x < mid + 1 implies
                    rows@[#[trigger] order@[x] as int].cols().len()
                    >= size by {
                    if x < mid {
                        assert(precedes(rows@, order@[x] as int, order@[mid as int] as int));
                    }
                }
                at = mid + 1;
            } else {
                assert forall|x: int| mid <= x < order@.len() implies
                    rows@[#[trigger] order@[x] as int].cols().len()
                    < size by {
                    if mid < x {
                        assert(precedes(rows@, order@[mid as int] as int, order@[x] as int));
                    }
                }
                end = mid;
            }
        }
        let ghost before = order@;
        order.insert(at, k);
        proof {
            let after = order@;
            assert forall|x: int, y: int| 0 <= x < y < after.len() implies precedes(
                rows@,
                #[trigger] after[x] as int,
                #[trigger] after[y] as int,
            ) by {
                let ox = if x < at { x } else { x - 1 };
                let oy = if y < at { y } else { y - 1 };
                if x != at && y != at {
                    assert(precedes(rows@, before[ox] as int, before[oy] as int));
                } else if x == at {
                    // What follows the new row is less full than it.
                    assert(rows@[before[oy] as int].cols().len() < size);
                } else {
                    assert(before[ox] < k);
                }
            }
            assert forall|j: int| 0 <= j < k + 1 implies #[trigger] listed(after, j) by {
                if j == k {
                    assert(after[at as int] == j);
                } else {
                    assert(listed(before, j));
                    let x = choose|x: int| 0 <= x < before.len() && #[trigger] before[x] == j;
                    if x < at {
                        assert(after[x] == j);
                    } else {
                        assert(after[x + 1] == j);
                    }
                }
            }
            assert forall|x: int| 0 <= x < after.len() implies #[trigger] after[x] < k + 1 by {
                let ox = if x < at { x } else { x - 1 };
                if x != at {
                    assert(before[ox] < k);
                }
            }
        }
        k += 1;
    }
    order
}

// Puts ordinal `v` in the cell of row `r` and column `c`, making the row
// where it is not there yet. Where the cell was in use, the ordinal that was
// there is returned.
fn place(keys: &mut Vec<usize>, rows: &mut Vec<Row>, r: usize, c: usize, v: usize) -> (prior:
    Option<usize>)
    requires
        grid_wf(old(keys)@, old(rows)@),
    ensures
        match prior {
            Some(w) => grid_holds(old(keys)@, old(rows)@, r, c, w),
            None => {
                &&& grid_wf(final(keys)@, final(rows)@)
                &&& forall|w: usize| !grid_holds(old(keys)@, old(rows)@, r, c, w)
                &&& forall|r2: usize, c2: usize, v2: usize|
                    grid_holds(final(keys)@, final(rows)@, r2, c2, v2) <==> (grid_holds(
                        old(keys)@,
                        old(rows)@,
                        r2,
                        c2,
                        v2,
                    ) || (r2 == r && c2 == c && v2 == v))
            },
        },
{
    let k = lower_bound(keys, r);
    let ghost ok = keys@;
    let ghost or = rows@;
    if !(k < keys.len() && keys[k] == r) {
        keys.insert(k, r);
        rows.insert(k, Row::empty());
        proof {
            let mk = keys@;
            let mr = rows@;
            assert forall|i: int, j: int| 0 <= i < j < mk.len() implies mk[i] < mk[j] by {
                let oi = if i < k { i } else { i - 1 };
                let oj = if j < k { j } else { j - 1 };
                if i != k && j != k {
                    assert(ok[oi] < ok[oj]);
                } else if i == k {
                    assert(ok[k as int] <= ok[oj]);
                }
            }
            assert forall|r2: usize, c2: usize, v2: usize|
                grid_holds(mk, mr, r2, c2, v2) <==> grid_holds(ok, or, r2, c2, v2) by {
                if grid_holds(mk, mr, r2, c2, v2) {
                    let q = choose|q: int| 0 <= q < mr.len() && #[trigger] mk[q] == r2
                        && mr[q].holds(c2, v2);
                    if q < k {
                        assert(ok[q] == r2 && or[q].holds(c2, v2));
                    } else if q > k {
                        assert(ok[q - 1] == r2 && or[q - 1].holds(c2, v2));
                    }
                }
                if grid_holds(ok, or, r2, c2, v2) {
                    let q = choose|q: int| 0 <= q < or.len() && #[trigger] ok[q] == r2
                        && or[q].holds(c2, v2);
                    if q < k {
                        assert(mk[q] == r2 && mr[q].holds(c2, v2));
                    } else {
                        assert(mk[q + 1] == r2 && mr[q + 1].holds(c2, v2));
                    }
                }
            }
        }
    }
    let ghost mk = keys@;
    let ghost mr = rows@;
    assert(mk[k as int] == r);
    assert(ascending(mk));
    assert(forall|q: int| 0 <= q < mr.len() ==> (#[trigger] mr[q]).wf());
    let prior = rows[k].insert(c, v);
    proof {
        let fr = rows@;
        assert(fr =~= mr.update(k as int, fr[k as int]));
        match prior {
            Some(w) => {
                assert(mk[k as int] == r && mr[k as int].holds(c, w));
                assert(grid_holds(mk, mr, r, c, w));
            },
            None => {
                assert forall|w: usize| !grid_holds(ok, or, r, c, w) by {
                    if grid_holds(mk, mr, r, c, w) {
                        let q = choose|q: int| 0 <= q < mr.len() && #[trigger] mk[q] == r
                            && mr[q].holds(c, w);
                        assert(q == k) by {
                            if q < k {
                                assert(mk[q] < mk[k as int]);
                            } else if q > k {
                                assert(mk[k as int] < mk[q]);
                            }
                        }
                    }
                }
                assert forall|r2: usize, c2: usize, v2: usize|
                    grid_holds(mk, fr, r2, c2, v2) <==> (grid_holds(mk, mr, r2, c2, v2) || (r2 == r
                        && c2 == c && v2 == v)) by {
                    if grid_holds(mk, fr, r2, c2, v2) {
                        let q = choose|q: int| 0 <= q < fr.len() && #[trigger] mk[q] == r2
                            && fr[q].holds(c2, v2);
                        if q == k {
                            if mr[k as int].holds(c2, v2) {
                                assert(mk[k as int] == r2 && mr[k as int].holds(c2, v2));
                            }
                        } else {
                            assert(mk[q] == r2 && mr[q].holds(c2, v2));
                        }
                    }
                    if grid_holds(mk, mr, r2, c2, v2) {
                        let q = choose|q: int| 0 <= q < mr.len() && #[trigger] mk[q] == r2
                            && mr[q].holds(c2, v2);
                        assert(mk[q] == r2 && fr[q].holds(c2, v2));
                    }
                    if r2 == r && c2 == c && v2 == v {
                        assert(mk[k as int] == r2 && fr[k as int].holds(c2, v2));
                    }
                }
                assert forall|q: int| 0 <= q < fr.len() implies
                    (#[trigger] fr[q]).wf() && fr[q].cols().len() > 0 by {
                    if q != k {
                        assert(fr[q] == mr[q]);
                        if q < k {
                            assert(mr[q] == or[q]);
                        } else if mr.len() == or.len() {
                            assert(mr[q] == or[q]);
                        } else {
                            assert(mr[q] == or[q - 1]);
                        }
                    }
                }
            },
        }
    }
    prior
}

impl TwoDArray {
    /// The indices of the rows in use, ascending.
    pub closed spec fn row_indices(&self) -> Seq<usize> {
        self.row_keys@
    }

    /// The rows in use, in the order of their indices.
    pub closed spec fn rows(&self) -> Seq<Row> {
        self.rows@
    }

    /// The positions of the rows in `rows()`, the fuller rows first.
    pub closed spec fn order(&self) -> Seq<usize> {
        self.rows_by_size@
    }

    /// The number of words for which the array was made.
    pub closed spec fn num_entries(&self) -> usize {
        self.num_entries
    }

    /// The number of rows in use.
    pub closed spec fn num_rows(&self) -> usize {
        self.num_rows
    }

    /// The greatest index of a row in use.
    pub closed spec fn last_row_index(&self) -> usize {
        self.last_row_index
    }

    /// What holds of every array that `new` returns: the rows stand by
    /// their indices, none of them is empty, and their order by size lists
    /// them all; the numbers of rows and entries and the last row index are
    /// what they are called; and the cells hold the ordinals from 1 to the
    /// number of entries.
    pub open spec fn wf(&self) -> bool {
        &&& grid_wf(self.row_indices(), self.rows())
        &&& self.rows().len() > 0
        &&& ordered_by_size(self.rows(), self.order())
        &&& self.num_rows() == self.rows().len()
        &&& self.last_row_index() == self.row_indices().last()
        &&& self.num_entries() > 0
        &&& forall|r: usize, c: usize, v: usize| #[trigger]
            self.holds(r, c, v) ==> 1 <= v <= self.num_entries()
        &&& forall|v: usize| 1 <= v <= self.num_entries() ==> #[trigger] self.has_ordinal(v)
    }

    /// Whether some cell holds ordinal `v`.
    pub open spec fn has_ordinal(&self, v: usize) -> bool {
        exists|r: usize, c: usize| self.holds(r, c, v)
    }

    /// Whether the cell in row `r` and column `c` holds ordinal `v`.
    pub open spec fn holds(&self, r: usize, c: usize, v: usize) -> bool {
        grid_holds(self.row_indices(), self.rows(), r, c, v)
    }

    /// Whether the cell in row `r` and column `c` is in use.
    pub open spec fn occupied(&self, r: usize, c: usize) -> bool {
        exists|k: int|
            0 <= k < self.rows().len() && #[trigger] self.row_indices()[k] == r
                && self.rows()[k].has_col(c)
    }

    /// The array holds the given cells and no others: cell `i`, counted from
    /// zero, with ordinal `i + 1`.
    pub open spec fn tabulates(&self, cells: Seq<(usize, usize)>) -> bool {
        &&& self.num_entries() == cells.len()
        &&& forall|i: int|
            0 <= i < cells.len() ==>
                self.holds((#[trigger] cells[i]).0, cells[i].1, (i + 1) as usize)
        &&& forall|r: usize, c: usize, v: usize| #[trigger]
            self.holds(r, c, v) ==> 1 <= v <= cells.len() && cells[v - 1] == (r, c)
    }

    /// The rows with their indices, in the order in which they are packed:
    /// by descending number of entries, and by ascending index where two
    /// rows have as many.
    pub open spec fn by_size(&self) -> Seq<(usize, Row)> {
        Seq::new(
            self.order().len(),
            |x: int| (self.row_indices()[self.order()[x] as int], self.rows()[self.order()[x] as int]),
        )
    }

    /// Create a new 2D array.
    /// The array is created by hashing each word in the word list and using the
    /// hash values as the row and column indices.
    /// The rows are then sorted by the number of entries in each row.
    ///
    /// # Errors
    /// Will return the error of the first sub-hash that fails, and `Err` if
    /// there is a collision in the array.
    /// A collision occurs when two words hash to the same row and column.
    /// This will happen if the hash algorithm is not good enough. A new algorithm
    /// will need to be tried.
    pub fn new<H: HashAlgorithm>(word_list: &WordList, hash_algorithm: &H) -> (r: Result<Self, Error>)
        requires
            word_list@.len() > 0,
        ensures
            !hashable(hash_algorithm, word_list@) ==> r is Err && r->Err_0@ == hashing_error(
                hash_algorithm,
                word_list@,
            ),
            hashable(hash_algorithm, word_list@) ==> {
                let cells = cells_of(hash_algorithm, word_list@);
                &&& !collision_free(cells) ==>
                    r is Err && r->Err_0@ == collision_error(word_list@, cells)
                &&& collision_free(cells) ==> r is Ok && r->Ok_0.wf() && r->Ok_0.tabulates(cells)
            },
    {
        let num_words = word_list.len();
        let ghost words = word_list@;

        // Calculate the indices that will be used in the 2D array.
        let mut row_indices: Vec<usize> = Vec::with_capacity(num_words);
        let mut col_indices: Vec<usize> = Vec::with_capacity(num_words);
        let mut i: usize = 0;
        while i < num_words
            invariant
                i <= num_words,
                num_words == word_list.list@.len(),
                words == word_list@,
                row_indices@.len() == i,
                col_indices@.len() == i,
                forall|j: int|
                    0 <= j < i ==> hash_algorithm.spec_h1(#[trigger] words[j])
                        == Ok::<usize, KindView>(
                        row_indices@[j],
                    ) && hash_algorithm.spec_h2(words[j]) == Ok::<usize, KindView>(col_indices@[j]),
            decreases num_words - i,
        {
            let word = &word_list.list[i];
            assert(word@ == words[i as int]);
            let row = match hash_algorithm.h1(word.as_str()) {
                Ok(row) => row,
                Err(e) => {
                    proof {
                        lemma_first_unhashable_unique(hash_algorithm, words, i as int);
                    }
                    return Err(e);
                },
            };
            let col = match hash_algorithm.h2(word.as_str()) {
                Ok(col) => col,
                Err(e) => {
                    proof {
                        lemma_first_unhashable_unique(hash_algorithm, words, i as int);
                    }
                    return Err(e);
                },
            };
            row_indices.push(row);
            col_indices.push(col);
            i += 1;
        }
        let ghost cells = cells_of(hash_algorithm, words);
        proof {
            assert forall|j: int| 0 <= j < words.len() implies hash_failure(
                hash_algorithm,
                #[trigger] words[j],
            ) is None by {}
        }

        // Fill the 2-D array with values.
        let mut keys: Vec<usize> = Vec::new();
        let mut rows: Vec<Row> = Vec::new();
        let mut i: usize = 0;
        while i < num_words
            invariant
                i <= num_words,
                num_words == word_list.list@.len(),
                words == word_list@,
                cells == cells_of(hash_algorithm, words),
                hashable(hash_algorithm, words),
                row_indices@.len() == num_words,
                col_indices@.len() == num_words,
                forall|j: int|
                    0 <= j < num_words ==>
                        (#[trigger] cells[j]) == (row_indices@[j], col_indices@[j]),
                grid_wf(keys@, rows@),
                i > 0 ==> rows@.len() > 0,
                collision_free(cells.take(i as int)),
                forall|j: int|
                    0 <= j < i ==> grid_holds(keys@, rows@, (#[trigger] cells[j]).0, cells[j].1, (j + 1) as usize),
                forall|r: usize, c: usize, v: usize| #[trigger]
                    grid_holds(keys@, rows@, r, c, v) ==> 1 <= v <= i && cells[v - 1] == (r, c),
            decreases num_words - i,
        {
            let r = row_indices[i];
            let c = col_indices[i];
            let ghost old_keys = keys@;
            let ghost old_rows = rows@;
            let current_idx = i + 1;  // word list is 1 based
            if let Some(prior) = place(&mut keys, &mut rows, r, c, current_idx) {
                assert(cells[prior - 1] == cells[i as int]);
                assert(first_collision(cells, prior - 1, i as int));
                proof {
                    lemma_first_collision_unique(cells, prior - 1, i as int);
                }
                let mut message = String::from_str("Collision: ");
                message.append(word_list.list[prior - 1].as_str());
                message.append(" === ");
                message.append(word_list.list[current_idx - 1].as_str());
                assert(message@ =~= collision_message(words[prior - 1], words[i as int]));
                return Err(Error::new(Kind::TwoDArrayError(message)));
            }
            proof {
                let longer = cells.take(i + 1);
                let shorter = cells.take(i as int);
                assert forall|a: int, b: int| 0 <= a < b < longer.len() implies
                    longer[a] != longer[b] by {
                    if b < i {
                        assert(shorter[a] != shorter[b]);
                    } else {
                        if cells[a] == cells[b] {
                            assert(grid_holds(old_keys, old_rows, cells[a].0, cells[a].1, (a + 1) as usize));
                        }
                    }
                }
                assert(grid_holds(keys@, rows@, r, c, current_idx));
                let k = choose|k: int| 0 <= k < rows@.len() && #[trigger] keys@[k] == r
                    && rows@[k].holds(c, current_idx);
                assert(rows@.len() > 0);
            }
            i += 1;
        }
        proof {
            assert(cells.take(num_words as int) =~= cells);
        }

        // Sort the rows of the array: a secondary index, rows sorted by size.
        let rows_by_size = order_by_size(&rows);
        let num_rows = rows.len();
        let last_row_index = keys[keys.len() - 1];
        let array = TwoDArray {
            row_keys: keys,
            rows,
            rows_by_size,
            num_entries: num_words,
            num_rows,
            last_row_index,
        };
        proof {
            assert forall|v: usize| 1 <= v <= array.num_entries() implies
                #[trigger] array.has_ordinal(v) by {
                assert(array.holds(cells[v - 1].0, cells[v - 1].1, v));
            }
        }
        Ok(array)
    }

    /// Get the number of entries in the array.
    pub fn get_num_entries(&self) -> (n: usize)
        ensures
            n == self.num_entries(),
    {
        self.num_entries
    }

    /// Get the index of the last row in the array.
    pub fn get_last_row_index(&self) -> (index: usize)
        ensures
            index == self.last_row_index(),
    {
        self.last_row_index
    }

    /// Get the number of rows in the array.
    pub fn get_num_rows(&self) -> (n: usize)
        ensures
            n == self.num_rows(),
    {
        self.num_rows
    }

    // Get a row of the array by its size.
    //
    // Index 0 is the row with the most entries.
    // Index 1 is the row with the second most entries.
    // etc.
    fn get_row_by_size(&self, index: usize) -> (found: Option<(usize, &Row)>)
        requires
            self.wf(),
        ensures
            match found {
                Some((row_index, row)) => index < self.by_size().len() && (row_index, *row)
                    == self.by_size()[index as int],
                None => index >= self.by_size().len(),
            },
    {
        if index < self.rows_by_size.len() {
            let at = self.rows_by_size[index];
            assert(self.order()[index as int] < self.rows().len());
            Some((self.row_keys[at], &self.rows[at]))
        } else {
            None
        }
    }
}

/// Only one word can be the first on which a sub-hash fails.
proof fn lemma_first_unhashable_unique<H: HashAlgorithm>(hash_algorithm: &H, words: Seq<Seq<char>>, i: int)
    requires
        0 <= i < words.len(),
        hash_failure(hash_algorithm, words[i]) is Some,
        forall|j: int| 0 <= j < i ==> hash_failure(hash_algorithm, #[trigger] words[j]) is None,
    ensures
        first_unhashable(hash_algorithm, words, i),
        !hashable(hash_algorithm, words),
        forall|k: int| first_unhashable(hash_algorithm, words, k) ==> k == i,
        first_unhashable_index(hash_algorithm, words) == i,
{
    assert forall|j: int| 0 <= j < words.take(i).len() implies hash_failure(
        hash_algorithm,
        #[trigger] words.take(i)[j],
    ) is None by {
        assert(words.take(i)[j] == words[j]);
    }
    assert(first_unhashable(hash_algorithm, words, i));
    assert forall|k: int| first_unhashable(hash_algorithm, words, k) implies k == i by {
        if k < i {
            assert(hash_failure(hash_algorithm, words[k]) is None);
        } else if k > i {
            assert(words.take(k)[i] == words[i]);
        }
    }
}

/// Only one pair of cells can be the first collision.
proof fn lemma_first_collision_unique(cells: Seq<(usize, usize)>, i: int, j: int)
    requires
        first_collision(cells, i, j),
    ensures
        forall|a: int, b: int| first_collision(cells, a, b) ==> a == i && b == j,
        first_collision_pair(cells) == (i, j),
        !collision_free(cells),
{
    assert forall|a: int, b: int| first_collision(cells, a, b) implies a == i && b == j by {
        if b < j {
            assert(cells.take(j)[a] != cells.take(j)[b]);
        } else if b > j {
            assert(cells.take(b)[i] != cells.take(b)[j]);
        } else if a < i {
            assert(cells.take(j)[a] != cells.take(j)[i]);
        } else if a > i {
            assert(cells.take(j)[i] != cells.take(j)[a]);
        }
    }
}

impl<'a> RowSizeIterator<'a> {
    /// The array whose rows are handed out.
    pub closed spec fn array(&self) -> TwoDArray {
        *self.two_d_array
    }

    /// The number of rows handed out so far.
    pub closed spec fn position(&self) -> usize {
        self.index
    }

    /// Create a new iterator, which starts at the fullest row.
    pub fn new(array: &'a TwoDArray) -> (it: Self)
        ensures
            it.array() == *array,
            it.position() == 0,
    {
        RowSizeIterator { two_d_array: array, index: 0 }
    }

    /// Get the next biggest row in the array, with its index, or `None`
    /// when every row was handed out.
    pub fn next_biggest(&mut self) -> (next: Option<(usize, &'a Row)>)
        requires
            old(self).array().wf(),
        ensures
            final(self).array() == old(self).array(),
            match next {
                Some((row_index, row)) => {
                    &&& old(self).position() < old(self).array().by_size().len()
                    &&& (row_index, *row)
                        == old(self).array().by_size()[old(self).position() as int]
                    &&& final(self).position() == old(self).position() + 1
                },
                None => {
                    &&& old(self).position() >= old(self).array().by_size().len()
                    &&& final(self).position() == old(self).position()
                },
            },
    {
        if let Some((index, row)) = self.two_d_array.get_row_by_size(self.index) {
            self.index += 1;
            return Some((index, row));
        }
        None
    }
}

/// The same cells are in use in both arrays, whatever they hold.
pub open spec fn same_shape(a: TwoDArray, b: TwoDArray) -> bool {
    forall|r: usize, c: usize| a.occupied(r, c) == b.occupied(r, c)
}

/// Each element stands before those that follow it.
pub open spec fn sorted_by(s: Seq<usize>, before: spec_fn(usize, usize) -> bool) -> bool {
    forall|i: int, j: int| 0 <= i < j < s.len() ==> before(#[trigger] s[i], #[trigger] s[j])
}

/// Every element of `s` occurs in `t`.
pub open spec fn within(s: Seq<usize>, t: Seq<usize>) -> bool {
    forall|i: int| 0 <= i < s.len() ==> t.contains(#[trigger] s[i])
}

/// Two sequences of the same elements that are sorted by one order, which
/// puts no two elements each before the other, are the same sequence.
pub proof fn lemma_sorted_unique(s: Seq<usize>, t: Seq<usize>, before: spec_fn(usize, usize) -> bool)
    requires
        sorted_by(s, before),
        sorted_by(t, before),
        within(s, t),
        within(t, s),
        forall|x: usize, y: usize| #[trigger] before(x, y) ==> !before(y, x),
    ensures
        s == t,
    decreases s.len(),
{
    if s.len() == 0 {
        if t.len() > 0 {
            assert(s.contains(t[0]));
        }
        assert(s =~= t);
    } else if t.len() == 0 {
        assert(t.contains(s[0]));
    } else {
        assert(t.contains(s[0]));
        assert(s.contains(t[0]));
        let j = choose|j: int| 0 <= j < t.len() && t[j] == s[0];
        let i = choose|i: int| 0 <= i < s.len() && s[i] == t[0];
        if j > 0 && i > 0 {
            assert(before(t[0], t[j]));
            assert(before(s[0], s[i]));
        }
        assert(s[0] == t[0]);
        let s1 = s.drop_first();
        let t1 = t.drop_first();
        assert forall|x: int| 0 <= x < s1.len() implies t1.contains(#[trigger] s1[x]) by {
            assert(s1[x] == s[x + 1]);
            assert(t.contains(s[x + 1]));
            let m = choose|m: int| 0 <= m < t.len() && t[m] == s[x + 1];
            if m == 0 {
                assert(before(s[0], s[x + 1]));
            }
            assert(t1[m - 1] == s1[x]);
        }
        assert forall|x: int| 0 <= x < t1.len() implies s1.contains(#[trigger] t1[x]) by {
            assert(t1[x] == t[x + 1]);
            assert(s.contains(t[x + 1]));
            let m = choose|m: int| 0 <= m < s.len() && s[m] == t[x + 1];
            if m == 0 {
                assert(before(t[0], t[x + 1]));
            }
            assert(s1[m - 1] == t1[x]);
        }
        assert forall|x: int, y: int| 0 <= x < y < s1.len() implies
            before(#[trigger] s1[x], #[trigger] s1[y]) by {
            assert(before(s[x + 1], s[y + 1]));
        }
        assert forall|x: int, y: int| 0 <= x < y < t1.len() implies
            before(#[trigger] t1[x], #[trigger] t1[y]) by {
            assert(before(t[x + 1], t[y + 1]));
        }
        lemma_sorted_unique(s1, t1, before);
        assert(s =~= seq![s[0]] + s1);
        assert(t =~= seq![t[0]] + t1);
    }
}

/// Two arrays in which the same cells are in use have the same rows with
/// the same columns, and their rows are packed in the same order.
pub proof fn lemma_same_shape(a: TwoDArray, b: TwoDArray)
    requires
        a.wf(),
        b.wf(),
        same_shape(a, b),
    ensures
        a.row_indices() == b.row_indices(),
        a.rows().len() == b.rows().len(),
        forall|k: int| 0 <= k < a.rows().len() ==>
            (#[trigger] a.rows()[k]).cols() == b.rows()[k].cols(),
        a.order() == b.order(),
        a.num_rows() == b.num_rows(),
        a.last_row_index() == b.last_row_index(),
{
    let less = |x: usize, y: usize| x < y;
    lemma_rows_within(a, b);
    lemma_rows_within(b, a);
    assert(sorted_by(a.row_indices(), less));
    assert(sorted_by(b.row_indices(), less));
    lemma_sorted_unique(a.row_indices(), b.row_indices(), less);
    assert forall|k: int| 0 <= k < a.rows().len() implies (#[trigger] a.rows()[k]).cols()
        == b.rows()[k].cols() by {
        lemma_cols_within(a, b, k);
        lemma_cols_within(b, a, k);
        assert(sorted_by(a.rows()[k].cols(), less));
        assert(sorted_by(b.rows()[k].cols(), less));
        lemma_sorted_unique(a.rows()[k].cols(), b.rows()[k].cols(), less);
    }
    let fuller = |x: usize, y: usize| precedes(a.rows(), x as int, y as int);
    assert(sorted_by(a.order(), fuller));
    assert(sorted_by(b.order(), fuller)) by {
        assert forall|x: int, y: int| 0 <= x < y < b.order().len() implies fuller(
            #[trigger] b.order()[x],
            #[trigger] b.order()[y],
        ) by {
            assert(precedes(b.rows(), b.order()[x] as int, b.order()[y] as int));
            assert(a.rows()[b.order()[x] as int].cols() == b.rows()[b.order()[x] as int].cols());
            assert(a.rows()[b.order()[y] as int].cols() == b.rows()[b.order()[y] as int].cols());
        }
    }
    assert(within(a.order(), b.order())) by {
        assert forall|x: int| 0 <= x < a.order().len() implies
            b.order().contains(#[trigger] a.order()[x]) by {
            assert(listed(b.order(), a.order()[x] as int));
        }
    }
    assert(within(b.order(), a.order())) by {
        assert forall|x: int| 0 <= x < b.order().len() implies
            a.order().contains(#[trigger] b.order()[x]) by {
            assert(listed(a.order(), b.order()[x] as int));
        }
    }
    lemma_sorted_unique(a.order(), b.order(), fuller);
}

// Every row index of `a` is one of `b`.
proof fn lemma_rows_within(a: TwoDArray, b: TwoDArray)
    requires
        a.wf(),
        b.wf(),
        same_shape(a, b),
    ensures
        within(a.row_indices(), b.row_indices()),
{
    assert forall|k: int| 0 <= k < a.row_indices().len() implies b.row_indices().contains(
        #[trigger] a.row_indices()[k],
    ) by {
        let r = a.row_indices()[k];
        let row = a.rows()[k];
        assert(row.wf() && row.cols().len() > 0);
        let c = row.cols()[0];
        assert(row.has_col(c));
        assert(a.occupied(r, c));
        assert(b.occupied(r, c));
        let m = choose|m: int|
            0 <= m < b.rows().len() && #[trigger] b.row_indices()[m] == r && b.rows()[m].has_col(c);
        assert(b.row_indices()[m] == r);
    }
}

// Every column of row `k` of `a` is one of row `k` of `b`.
proof fn lemma_cols_within(a: TwoDArray, b: TwoDArray, k: int)
    requires
        a.wf(),
        b.wf(),
        same_shape(a, b),
        a.row_indices() == b.row_indices(),
        0 <= k < a.rows().len(),
    ensures
        within(a.rows()[k].cols(), b.rows()[k].cols()),
{
    let acols = a.rows()[k].cols();
    let bcols = b.rows()[k].cols();
    let r = a.row_indices()[k];
    assert forall|p: int| 0 <= p < acols.len() implies bcols.contains(#[trigger] acols[p]) by {
        let c = acols[p];
        assert(a.rows()[k].has_col(c));
        assert(a.occupied(r, c));
        assert(b.occupied(r, c));
        let m = choose|m: int|
            0 <= m < b.rows().len() && #[trigger] b.row_indices()[m] == r && b.rows()[m].has_col(c);
        if m < k {
            assert(b.row_indices()[m] < b.row_indices()[k]);
        } else if k < m {
            assert(b.row_indices()[k] < b.row_indices()[m]);
        }
        let q = choose|q: int| 0 <= q < bcols.len() && #[trigger] bcols[q] == c;
        assert(bcols[q] == c);
    }
}

/// Two arrays of the same cells, in whatever order the cells were given,
/// have the same cells in use, and were made for as many words.
pub proof fn lemma_tabulated_alike(
    a: TwoDArray,
    b: TwoDArray,
    first: Seq<(usize, usize)>,
    second: Seq<(usize, usize)>,
)
    requires
        a.tabulates(first),
        b.tabulates(second),
        first.len() == second.len(),
        forall|cell: (usize, usize)| first.contains(cell) == second.contains(cell),
    ensures
        same_shape(a, b),
        a.num_entries() == b.num_entries(),
{
    assert forall|r: usize, c: usize| a.occupied(r, c) == b.occupied(r, c) by {
        lemma_occupied(a, first, r, c);
        lemma_occupied(b, second, r, c);
    }
}

/// A cell is in use where it is the cell of a word.
pub proof fn lemma_occupied(a: TwoDArray, cells: Seq<(usize, usize)>, r: usize, c: usize)
    requires
        a.tabulates(cells),
    ensures
        a.occupied(r, c) <==> cells.contains((r, c)),
{
    if a.occupied(r, c) {
        let k = choose|k: int|
            0 <= k < a.rows().len() && #[trigger] a.row_indices()[k] == r && a.rows()[k].has_col(c);
        let row = a.rows()[k];
        let q = choose|q: int| 0 <= q < row.cols().len() && #[trigger] row.cols()[q] == c;
        let v = row.vals()[q];
        assert(row.cols()[q] == c && row.vals()[q] == v);
        assert(row.holds(c, v));
        assert(a.row_indices()[k] == r && a.rows()[k].holds(c, v));
        assert(a.holds(r, c, v));
        assert(cells[v - 1] == (r, c));
    }
    if cells.contains((r, c)) {
        let i = choose|i: int| 0 <= i < cells.len() && cells[i] == (r, c);
        assert(a.holds(cells[i].0, cells[i].1, (i + 1) as usize));
        let k = choose|k: int|
            0 <= k < a.rows().len() && #[trigger] a.row_indices()[k] == r && a.rows()[k].holds(
                c,
                (i + 1) as usize,
            );
        let row = a.rows()[k];
        let q = choose|q: int|
            0 <= q < row.cols().len() && #[trigger] row.cols()[q] == c && row.vals()[q]
                == (i + 1) as usize;
        assert(row.cols()[q] == c);
        assert(row.has_col(c));
        assert(a.row_indices()[k] == r && a.rows()[k].has_col(c));
    }
}

} // verus!
