//! The construction as a whole: from a word list and a hash algorithm to
//! the hash as a callable value and as pseudo code.

use vstd::prelude::*;
use vstd::string::*;
use crate::decimal::{
    append_decimal, decimal, decimal_value, first_of, is_digit, lemma_decimal_value, lemma_first_of,
    lemma_trailing_digits, trailing_digits,
};
use crate::error::{Error, Kind, KindView};
use crate::hash_algorithm::{is_line, HashAlgorithm};
use crate::one_d_packed_array::{
    cols_by_size, indices_by_size, infeasible_error, is_first_fit, lemma_pack_fits, lemma_same_packing,
    lemma_slots_differ, lemma_table, overflow_error, pack_all, slot, table_of, taken,
    OneDPackedArray, Packing,
};
use crate::permutation::{distinct, in_range, is_permutation, lemma_pigeonhole};
use crate::rlt::{is_table_char, joined, lemma_joined_chars, Rlt};
use crate::two_d_array::{
    cells_of, collision_error, collision_free, hash_failure, hashable, hashing_error,
    lemma_tabulated_alike, listed, TwoDArray,
};
use crate::word_list::{valid, validation_error, WordList};

verus! {

/// The hash as a callable value: it owns the packed array with its row
/// lookup table, and the hash algorithm, and computes from these.
#[derive(Debug)]
pub struct HashClosure<H: HashAlgorithm> {
    one_d_packed_array: OneDPackedArray,
    hash_algorithm: H,
}

/// A struct containing a string representation of the hash function and a
/// closure that takes a word and returns a hash value.
#[derive(Debug)]
pub struct HashData<H: HashAlgorithm> {
    /// A string representation of the hash function.
    /// This is a pseudo code representation of the msmp hash function. It can be
    /// used to help implement the msmp hash function in other languages.
    pub as_string: String,
    /// A closure that takes a word and returns a hash value.
    pub as_closure: HashClosure<H>,
}

/// The hash value for a word with the sub-hashes `row` and `col`, looked up
/// in `table` for an array of `n` slots: the displacement of the row plus
/// the column, modulo `n`.
///
/// A sub-hash that failed counts as zero, and so do a column too large for
/// a signed integer, the displacement of a row beyond the table, and a
/// negative sum.
pub open spec fn hash_of(
    row: Result<usize, KindView>,
    col: Result<usize, KindView>,
    table: Seq<isize>,
    n: int,
) -> int {
    let r = match row {
        Ok(r) => r,
        Err(_) => 0,
    };
    let c = match col {
        Ok(c) => if c <= isize::MAX {
            c
        } else {
            0
        },
        Err(_) => 0,
    };
    let d = if r < table.len() {
        table[r as int]
    } else {
        0
    };
    if d + c < 0 {
        0
    } else {
        (d + c) % n
    }
}

/// The hash value of `word` under `hash_algorithm` and `rlt`.
pub open spec fn spec_hash<H: HashAlgorithm>(word: Seq<char>, rlt: Rlt, hash_algorithm: &H) -> int {
    hash_of(
        hash_algorithm.spec_h1(word),
        hash_algorithm.spec_h2(word),
        rlt.table(),
        rlt.num_entries() as int,
    )
}

/// The hash function in pseudo code: four lines, of which the first holds
/// the row lookup table, the second and third the two sub-hashes, and the
/// last the number of slots.
pub open spec fn pseudo_code(table: Seq<char>, h1: Seq<char>, h2: Seq<char>, n: nat) -> Seq<char> {
    "row_lookup_table = ["@ + table + "]\nrow_index = "@ + h1 + "\ncol_index = "@ + h2
        + "\nhash_value = (row_lookup_table[row_index] + col_index) % "@ + decimal(n) + "\n"@
}

/// Four lines, each ended by a line break.
pub open spec fn in_lines(a: Seq<char>, b: Seq<char>, c: Seq<char>, d: Seq<char>) -> Seq<char> {
    a + "\n"@ + b + "\n"@ + c + "\n"@ + d + "\n"@
}

/// The text is four lines, each ended by a line break, and nothing else.
pub open spec fn is_four_lines(code: Seq<char>) -> bool {
    exists|a: Seq<char>, b: Seq<char>, c: Seq<char>, d: Seq<char>|
        is_line(a) && is_line(b) && is_line(c) && is_line(d) && #[trigger] in_lines(a, b, c, d)
            == code
}

/// The text of the row lookup table in pseudo code: what stands between
/// the brackets of the first line.
pub open spec fn table_in(code: Seq<char>) -> Seq<char> {
    let body = code.skip("row_lookup_table = ["@.len() as int);
    body.take(first_of(body, ']'))
}

/// The number of slots in pseudo code: the number at the end of the last
/// line.
pub open spec fn slots_in(code: Seq<char>) -> nat {
    decimal_value(trailing_digits(code.drop_last()))
}

/// The hash values of the words, in the order of the words.
pub open spec fn hashes<H: HashAlgorithm>(words: Seq<Seq<char>>, rlt: Rlt, hash_algorithm: &H) -> Seq<
    int,
> {
    Seq::new(words.len(), |i: int| spec_hash(words[i], rlt, hash_algorithm))
}

/// The error for two words with one hash value.
pub open spec fn verify_collision_error() -> KindView {
    KindView::HashError("Collision detected while verifying the hash."@)
}

/// The error for hash values that leave a slot out.
pub open spec fn verify_gap_error() -> KindView {
    KindView::HashError("Unexpected gap found in index list."@)
}

impl<H: HashAlgorithm> HashData<H> {
    /// The hash is made of the row lookup table `table` for `n` slots and
    /// of `hash_algorithm`: the closure owns them, and the pseudo code
    /// renders them.
    pub open spec fn is_hash_of(&self, table: Seq<isize>, n: usize, hash_algorithm: H) -> bool {
        &&& self.as_closure.hash_algorithm() == hash_algorithm
        &&& self.as_closure.rlt().table() == table
        &&& self.as_closure.rlt().num_entries() == n
        &&& self.as_string@ == pseudo_code(
            joined(table, 0),
            hash_algorithm.spec_h1_text(),
            hash_algorithm.spec_h2_text(),
            n as nat,
        )
    }
}

impl<H: HashAlgorithm> HashClosure<H> {
    /// The row lookup table that the closure owns.
    pub closed spec fn rlt(&self) -> Rlt {
        self.one_d_packed_array.rlt()
    }

    /// The hash algorithm that the closure owns.
    pub closed spec fn hash_algorithm(&self) -> H {
        self.hash_algorithm
    }

    #[verifier::type_invariant]
    spec fn inv(&self) -> bool {
        self.one_d_packed_array.rlt().num_entries() > 0
    }

    /// The hash value that `call` returns for a word.
    pub open spec fn spec_call(&self, word: Seq<char>) -> int {
        spec_hash(word, self.rlt(), &self.hash_algorithm())
    }

    fn new(one_d_packed_array: OneDPackedArray, hash_algorithm: H) -> (closure: Self)
        requires
            one_d_packed_array.rlt().num_entries() > 0,
        ensures
            closure.rlt() == one_d_packed_array.rlt(),
            closure.hash_algorithm() == hash_algorithm,
    {
        Self { one_d_packed_array, hash_algorithm }
    }

    /// The hash value of a word: for a word of the list from which the hash
    /// was made its slot, for any other word some slot.
    pub fn call(&self, word: &str) -> (value: usize)
        ensures
            value == self.spec_call(word@),
            value < self.rlt().num_entries(),
    {
        proof {
            use_type_invariant(self);
        }
        hash(word, self.one_d_packed_array.get_rlt(), &self.hash_algorithm)
    }
}

/// Implements the closure returned to the generate_hash caller: the hash
/// value of `word`, looked up in `rlt` with the sub-hashes of
/// `hash_algorithm`.
pub fn hash<H: HashAlgorithm>(word: &str, rlt: &Rlt, hash_algorithm: &H) -> (value: usize)
    requires
        rlt.num_entries() > 0,
    ensures
        value == spec_hash(word@, *rlt, hash_algorithm),
        value < rlt.num_entries(),
{
    let row_index = match hash_algorithm.h1(word) {
        Ok(index) => index,
        Err(_) => 0,
    };
    let col_index = match hash_algorithm.h2(word) {
        Ok(index) => index,
        Err(_) => 0,
    };
    let rlt_val: isize = match rlt.get(row_index) {
        Some(value) => *value,
        None => 0,
    };
    let col: isize = if col_index <= isize::MAX as usize {
        col_index as isize
    } else {
        0
    };
    let num_entries = rlt.get_num_entries();
    let sum: i128 = rlt_val as i128 + col as i128;
    if sum < 0 {
        0
    } else {
        proof {
            vstd::arithmetic::div_mod::lemma_mod_bound(sum as int, num_entries as int);
        }
        ((sum as u128) % (num_entries as u128)) as usize
    }
}

/// Generates a string representation of the hash function.
///
/// The string representation is a pseudo code representation of the msmp hash
/// function. It can be used to help implement the msmp hash function in other
/// languages.
pub fn text<H: HashAlgorithm>(rlt: &Rlt, hash_algorithm: &H) -> (rv: String)
    ensures
        rv@ == pseudo_code(
            joined(rlt.table(), 0),
            hash_algorithm.spec_h1_text(),
            hash_algorithm.spec_h2_text(),
            rlt.num_entries() as nat,
        ),
        is_four_lines(rv@),
{
    let mut rv = String::from_str("row_lookup_table = [");
    rv.append(rlt.get_as_text().as_str());
    rv.append("]\nrow_index = ");
    rv.append(hash_algorithm.h1_as_text().as_str());
    rv.append("\ncol_index = ");
    rv.append(hash_algorithm.h2_as_text().as_str());
    rv.append("\nhash_value = (row_lookup_table[row_index] + col_index) % ");
    append_decimal(&mut rv, rlt.get_num_entries());
    rv.append("\n");
    assert(rv@ =~= pseudo_code(
        joined(rlt.table(), 0),
        hash_algorithm.spec_h1_text(),
        hash_algorithm.spec_h2_text(),
        rlt.num_entries() as nat,
    ));
    proof {
        lemma_pseudo_code_lines(
            rlt.table(),
            hash_algorithm.spec_h1_text(),
            hash_algorithm.spec_h2_text(),
            rlt.num_entries() as nat,
        );
    }
    rv
}

/// The flags `seen` and the list `beyond` record the values: a value that
/// is a position of `seen` by its flag, any other value by standing in
/// `beyond`.
pub open spec fn recorded(seen: Seq<bool>, beyond: Seq<usize>, values: Seq<int>) -> bool {
    &&& forall|p: int| 0 <= p < seen.len() ==> (#[trigger] seen[p] <==> values.contains(p))
    &&& forall|v: usize| #[trigger] beyond.contains(v) <==>
        v >= seen.len() && values.contains(v as int)
}

// Whether `value` is recorded.
fn is_recorded(seen: &Vec<bool>, beyond: &Vec<usize>, value: usize, Ghost(values): Ghost<Seq<int>>) -> (found:
    bool)
    requires
        recorded(seen@, beyond@, values),
    ensures
        found == values.contains(value as int),
{
    if value < seen.len() {
        return seen[value];
    }
    let mut b: usize = 0;
    while b < beyond.len()
        invariant
            b <= beyond@.len(),
            value >= seen@.len(),
            recorded(seen@, beyond@, values),
            forall|c: int| 0 <= c < b ==> #[trigger] beyond@[c] != value,
        decreases beyond.len() - b,
    {
        if beyond[b] == value {
            assert(beyond@.contains(value));
            return true;
        }
        b += 1;
    }
    assert(!beyond@.contains(value));
    false
}

// Records `value`, which is not recorded yet.
fn record(seen: &mut Vec<bool>, beyond: &mut Vec<usize>, value: usize, Ghost(values): Ghost<Seq<int>>)
    requires
        recorded(old(seen)@, old(beyond)@, values),
    ensures
        final(seen)@.len() == old(seen)@.len(),
        recorded(final(seen)@, final(beyond)@, values.push(value as int)),
{
    let ghost longer = values.push(value as int);
    if value < seen.len() {
        seen[value] = true;
    } else {
        beyond.push(value);
    }
    proof {
        assert forall|x: int| longer.contains(x) <==> values.contains(x) || x == value by {
            if values.contains(x) {
                let j = choose|j: int| 0 <= j < values.len() && values[j] == x;
                assert(longer[j] == x);
            }
            if x == value {
                assert(longer[values.len() as int] == x);
            }
        }
        assert forall|v: usize| #[trigger] beyond@.contains(v) <==>
            v >= seen@.len() && longer.contains(
            v as int,
        ) by {
            if beyond@.contains(v) {
                let b = choose|b: int| 0 <= b < beyond@.len() && beyond@[b] == v;
                if b < old(beyond)@.len() {
                    assert(old(beyond)@[b] == v);
                    assert(old(beyond)@.contains(v));
                }
            }
            if v >= seen@.len() && longer.contains(v as int) {
                if v == value {
                    assert(beyond@[beyond@.len() - 1] == v);
                } else {
                    assert(old(beyond)@.contains(v));
                    let b = choose|b: int| 0 <= b < old(beyond)@.len() && old(beyond)@[b] == v;
                    assert(beyond@[b] == v);
                }
            }
        }
    }
}

/// Verifies that the hash function is valid for the given word list.
///
/// This is done by generating a hash value for each word in the word list
/// and checking that there are no collisions and that the hash values are
/// the slots `0`, .., `len(word_list) - 1`.
///
/// # Errors
/// Will return `Err` if two words have one hash value, and else if a hash
/// value is no slot, so that some slot is left out.
pub fn verify<H: HashAlgorithm>(word_list: &WordList, rlt: &Rlt, hash_algorithm: &H) -> (r: Result<
    (),
    Error,
>)
    requires
        rlt.num_entries() > 0,
    ensures
        ({
            let values = hashes(word_list@, *rlt, hash_algorithm);
            &&& !distinct(values) ==> r is Err && r->Err_0@ == verify_collision_error()
            &&& distinct(values) && !in_range(values, values.len() as int) ==> r is Err && r->Err_0@
                == verify_gap_error()
            &&& distinct(values) && in_range(values, values.len() as int) ==> r is Ok
        }),
{
    let num_words = word_list.len();
    let ghost words = word_list@;
    let ghost values = hashes(words, *rlt, hash_algorithm);
    // Which slots were seen, and the hash values that are no slots.
    let mut seen: Vec<bool> = vec![false; num_words];
    let mut beyond: Vec<usize> = Vec::new();
    let mut i: usize = 0;
    while i < num_words
        invariant
            i <= num_words,
            num_words == word_list.list@.len(),
            words == word_list@,
            values == hashes(words, *rlt, hash_algorithm),
            rlt.num_entries() > 0,
            seen@.len() == num_words,
            distinct(values.take(i as int)),
            recorded(seen@, beyond@, values.take(i as int)),
        decreases num_words - i,
    {
        let word = &word_list.list[i];
        assert(word@ == words[i as int]);
        let hash_result = hash(word.as_str(), rlt, hash_algorithm);
        let ghost earlier = values.take(i as int);
        if is_recorded(&seen, &beyond, hash_result, Ghost(earlier)) {
            proof {
                let j = choose|j: int| 0 <= j < earlier.len() && earlier[j] == hash_result;
                assert(values[j] == values[i as int]);
            }
            return Err(
                Error::new(Kind::HashError(String::from_str("Collision detected while verifying the hash."))),
            );
        }
        record(&mut seen, &mut beyond, hash_result, Ghost(earlier));
        proof {
            let longer = values.take(i + 1);
            assert(longer =~= earlier.push(hash_result as int));
            assert forall|x: int, y: int| 0 <= x < y < longer.len() implies
                longer[x] != longer[y] by {
                if y < i {
                    assert(earlier[x] != earlier[y]);
                } else if longer[x] == longer[y] {
                    assert(earlier[x] == hash_result);
                    assert(earlier.contains(hash_result as int));
                }
            }
        }
        i += 1;
    }
    assert(values.take(i as int) =~= values);
    if beyond.len() > 0 {
        proof {
            assert(beyond@.contains(beyond@[0]));
            let j = choose|j: int| 0 <= j < values.len() && values[j] == beyond@[0];
            assert(!(0 <= values[j] < values.len()));
        }
        return Err(Error::new(Kind::HashError(String::from_str("Unexpected gap found in index list."))));
    }
    proof {
        assert forall|j: int| 0 <= j < values.len() implies
            0 <= #[trigger] values[j] < values.len() by {
            if values[j] >= num_words {
                assert(values.contains(values[j]));
                assert(beyond@.contains(values[j] as usize));
            }
        }
    }
    Ok(())
}

/// The pseudo code of sub-hashes that hold no line break is four lines:
/// the table, the two sub-hashes and the hash value, each on a line of its
/// own that ends with a line break.
pub proof fn lemma_pseudo_code_lines(table: Seq<isize>, h1: Seq<char>, h2: Seq<char>, n: nat)
    requires
        is_line(h1),
        is_line(h2),
    ensures
        is_four_lines(pseudo_code(joined(table, 0), h1, h2, n)),
{
    let text = joined(table, 0);
    reveal_strlit("row_lookup_table = [");
    reveal_strlit("]");
    reveal_strlit("row_index = ");
    reveal_strlit("col_index = ");
    reveal_strlit("hash_value = (row_lookup_table[row_index] + col_index) % ");
    reveal_strlit("]\nrow_index = ");
    reveal_strlit("\ncol_index = ");
    reveal_strlit("\nhash_value = (row_lookup_table[row_index] + col_index) % ");
    reveal_strlit("\n");
    let a = "row_lookup_table = ["@ + text + "]"@;
    let b = "row_index = "@ + h1;
    let c = "col_index = "@ + h2;
    let d = "hash_value = (row_lookup_table[row_index] + col_index) % "@ + decimal(n);
    lemma_joined_chars(table, 0);
    assert forall|i: int| 0 <= i < text.len() implies #[trigger] text[i] != '\n' by {
        assert(is_table_char(text[i]));
    }
    lemma_decimal_value(n);
    assert forall|i: int| 0 <= i < decimal(n).len() implies #[trigger] decimal(n)[i] != '\n' by {
        assert(is_digit(decimal(n)[i]));
    }
    assert(is_line(a));
    assert(is_line(b));
    assert(is_line(c));
    assert(is_line(d));
    assert("]\nrow_index = "@ =~= "]"@ + "\n"@ + "row_index = "@);
    assert("\ncol_index = "@ =~= "\n"@ + "col_index = "@);
    assert("\nhash_value = (row_lookup_table[row_index] + col_index) % "@ =~= "\n"@
        + "hash_value = (row_lookup_table[row_index] + col_index) % "@);
    assert(in_lines(a, b, c, d) =~= pseudo_code(text, h1, h2, n));
}

/// The pseudo code of a hash can be read back: between the brackets of its
/// first line stands the text of the table, and its last line ends with
/// the number of slots.
pub proof fn lemma_pseudo_code_reads_back(table: Seq<isize>, h1: Seq<char>, h2: Seq<char>, n: nat)
    ensures
        table_in(pseudo_code(joined(table, 0), h1, h2, n)) == joined(table, 0),
        slots_in(pseudo_code(joined(table, 0), h1, h2, n)) == n,
{
    let code = pseudo_code(joined(table, 0), h1, h2, n);
    let text = joined(table, 0);
    reveal_strlit("row_lookup_table = [");
    reveal_strlit("]\nrow_index = ");
    reveal_strlit("\nhash_value = (row_lookup_table[row_index] + col_index) % ");
    reveal_strlit("\n");
    let opening = "row_lookup_table = ["@;
    let middle = "]\nrow_index = "@ + h1 + "\ncol_index = "@ + h2;
    let last_line = "\nhash_value = (row_lookup_table[row_index] + col_index) % "@;
    let rest = middle + last_line + decimal(n) + "\n"@;
    assert(code =~= opening + text + rest);

    let body = code.skip(opening.len() as int);
    assert(body =~= text + rest);
    lemma_joined_chars(table, 0);
    assert forall|i: int| 0 <= i < text.len() implies #[trigger] text[i] != ']' by {
        assert(is_table_char(text[i]));
    }
    assert(rest[0] == ']');
    lemma_first_of(text, rest, ']');
    assert(body.take(text.len() as int) =~= text);

    let before = opening + text + middle + last_line;
    assert(code.drop_last() =~= before + decimal(n));
    assert(before.last() == ' ') by {
        assert(before.last() == last_line.last());
    }
    lemma_decimal_value(n);
    lemma_trailing_digits(before, decimal(n));
}

/// The two-dimensional array of the given cells: an array such as
/// `TwoDArray::new` returns for words with these cells. All such arrays
/// have the same rows in the same order, and are packed alike, so that
/// any of them tells what is generated (`lemma_generated_of_array`).
pub open spec fn grid_of(cells: Seq<(usize, usize)>) -> TwoDArray {
    choose|a: TwoDArray| a.wf() && a.tabulates(cells)
}

/// What `generate_hash` makes of a word list and a hash algorithm: the row
/// lookup table and the number of slots of the hash, or the error with
/// which the construction ends.
///
/// The list is validated first. Then every word is hashed, and the cells of
/// the words are examined for collisions. At last the rows of the array of
/// these cells are packed.
pub open spec fn generated<H: HashAlgorithm>(words: Seq<Seq<char>>, hash_algorithm: &H) -> Result<
    (Seq<isize>, usize),
    KindView,
> {
    if !valid(words) {
        Err(validation_error(words))
    } else if !hashable(hash_algorithm, words) {
        Err(hashing_error(hash_algorithm, words))
    } else if !collision_free(cells_of(hash_algorithm, words)) {
        Err(collision_error(words, cells_of(hash_algorithm, words)))
    } else {
        let a = grid_of(cells_of(hash_algorithm, words));
        match pack_all(a) {
            Packing::Packed(ds) => Ok(
                (table_of(indices_by_size(a), ds, (a.last_row_index() + 1) as nat), a.num_entries()),
            ),
            Packing::Infeasible => Err(infeasible_error()),
            Packing::Overflow => Err(overflow_error()),
        }
    }
}

/// What `generate_hash` makes of words that are valid, that can be hashed
/// and whose cells are free of collisions is told by any array of their
/// cells, such as `TwoDArray::new` returns for them: it is what the
/// packing of that array gives.
pub proof fn lemma_generated_of_array<H: HashAlgorithm>(
    words: Seq<Seq<char>>,
    hash_algorithm: &H,
    a: TwoDArray,
)
    requires
        valid(words),
        hashable(hash_algorithm, words),
        collision_free(cells_of(hash_algorithm, words)),
        a.wf(),
        a.tabulates(cells_of(hash_algorithm, words)),
    ensures
        generated(words, hash_algorithm) == match pack_all(a) {
            Packing::Packed(ds) => Ok::<(Seq<isize>, usize), KindView>(
                (table_of(indices_by_size(a), ds, (a.last_row_index() + 1) as nat), a.num_entries()),
            ),
            Packing::Infeasible => Err::<(Seq<isize>, usize), KindView>(infeasible_error()),
            Packing::Overflow => Err::<(Seq<isize>, usize), KindView>(overflow_error()),
        },
{
    let cells = cells_of(hash_algorithm, words);
    let chosen = grid_of(cells);
    assert(chosen.wf() && chosen.tabulates(cells));
    lemma_tabulated_alike(a, chosen, cells, cells);
    lemma_same_packing(a, chosen);
}

/// The hash value of a word of the list is the slot of its cell: the slot
/// on which its column falls when it is shifted by the displacement of its
/// row.
pub proof fn lemma_member_slot<H: HashAlgorithm>(
    words: Seq<Seq<char>>,
    hash_algorithm: &H,
    a: TwoDArray,
    packed: OneDPackedArray,
    ds: Seq<int>,
    i: int,
) -> (at: (int, int))
    requires
        hashable(hash_algorithm, words),
        a.wf(),
        a.tabulates(cells_of(hash_algorithm, words)),
        pack_all(a) == Packing::Packed(ds),
        packed.holds_packing(a, ds),
        0 <= i < words.len(),
    ensures
        0 <= at.0 < cols_by_size(a).len(),
        0 <= at.1 < cols_by_size(a)[at.0].len(),
        indices_by_size(a)[at.0] == cells_of(hash_algorithm, words)[i].0,
        cols_by_size(a)[at.0][at.1] == cells_of(hash_algorithm, words)[i].1,
        spec_hash(words[i], packed.rlt(), hash_algorithm) == slot(
            cols_by_size(a)[at.0][at.1] as int,
            ds[at.0],
            a.num_entries() as int,
        ),
        0 <= spec_hash(words[i], packed.rlt(), hash_algorithm) < words.len(),
{
    let cells = cells_of(hash_algorithm, words);
    let n = a.num_entries() as int;
    let all_cols = cols_by_size(a);
    let (r, c) = cells[i];
    assert(hash_failure(hash_algorithm, words[i]) is None);
    assert(a.holds(cells[i].0, cells[i].1, (i + 1) as usize));
    let k = choose|k: int|
        0 <= k < a.rows().len() && #[trigger] a.row_indices()[k] == r && a.rows()[k].holds(
            c,
            (i + 1) as usize,
        );
    let row = a.rows()[k];
    let q = choose|q: int| 0 <= q < row.cols().len() && #[trigger] row.cols()[q] == c
        && row.vals()[q] == (i + 1) as usize;
    assert(listed(a.order(), k));
    let x = choose|x: int| 0 <= x < a.order().len() && #[trigger] a.order()[x] == k;
    assert(a.by_size()[x] == (r, row));
    assert(all_cols[x] == row.cols());
    assert(row.wf());

    lemma_pack_fits(all_cols, n, a.by_size().len());
    let d = ds[x];
    assert(all_cols[x].last() <= isize::MAX);
    assert(is_first_fit(all_cols[x], d, n, taken(all_cols, ds.take(x), n)));
    assert(row.cols()[0] <= c <= row.cols().last()) by {
        if q > 0 {
            assert(row.cols()[0] < row.cols()[q]);
        }
        if q < row.cols().len() - 1 {
            assert(row.cols()[q] < row.cols()[row.cols().len() - 1]);
        }
    }
    // The table holds the displacement of the row at the index of the row.
    assert(r <= a.last_row_index()) by {
        if k < a.row_indices().len() - 1 {
            assert(a.row_indices()[k] < a.row_indices()[a.row_indices().len() - 1]);
        }
    }
    assert(packed.rlt().table()[a.by_size()[x].0 as int] == d);
    vstd::arithmetic::div_mod::lemma_mod_bound(d + c, n);
    (x, q)
}

/// The hash that is made of a packed array sends the words of the list to
/// the slots `0`, .., `len - 1`, each word to a slot of its own.
pub proof fn lemma_perfect<H: HashAlgorithm>(
    words: Seq<Seq<char>>,
    hash_algorithm: &H,
    a: TwoDArray,
    packed: OneDPackedArray,
    ds: Seq<int>,
)
    requires
        hashable(hash_algorithm, words),
        collision_free(cells_of(hash_algorithm, words)),
        a.wf(),
        a.tabulates(cells_of(hash_algorithm, words)),
        pack_all(a) == Packing::Packed(ds),
        packed.holds_packing(a, ds),
    ensures
        is_permutation(hashes(words, packed.rlt(), hash_algorithm)),
{
    let values = hashes(words, packed.rlt(), hash_algorithm);
    let cells = cells_of(hash_algorithm, words);
    let n = a.num_entries() as int;
    let all_cols = cols_by_size(a);
    assert forall|i: int| 0 <= i < values.len() implies
        0 <= #[trigger] values[i] < values.len() by {
        lemma_member_slot(words, hash_algorithm, a, packed, ds, i);
    }
    assert forall|i: int, j: int| 0 <= i < j < values.len() implies values[i] != values[j] by {
        let at_i = lemma_member_slot(words, hash_algorithm, a, packed, ds, i);
        let at_j = lemma_member_slot(words, hash_algorithm, a, packed, ds, j);
        assert(cells[i] != cells[j]);
        lemma_slots_differ(all_cols, n, a.by_size().len(), at_i.0, at_i.1, at_j.0, at_j.1);
    }
    lemma_pigeonhole(values);
}

/// Generates a msmp hash function from a word list.
///
/// The hash maps the words of the list onto the slots `0`, ..,
/// `len - 1`, each word to a slot of its own. It is returned as a closure
/// and as pseudo code.
///
/// # Errors
/// Will return `Err` if `word_list` fails to resolve to a hash function:
/// the list is not valid, a sub-hash fails on a word, two words share a
/// cell, or the rows cannot be packed.
pub fn generate_hash<H: HashAlgorithm>(word_list: &WordList, hash_algorithm: H) -> (r: Result<
    HashData<H>,
    Error,
>)
    ensures
        match generated(word_list@, &hash_algorithm) {
            Ok((table, n)) => r is Ok && r->Ok_0.is_hash_of(table, n, hash_algorithm),
            Err(e) => r is Err && r->Err_0@ == e,
        },
        r is Ok ==> r->Ok_0.as_closure.rlt().num_entries() == word_list@.len() && is_permutation(
            hashes(word_list@, r->Ok_0.as_closure.rlt(), &hash_algorithm),
        ),
        r is Ok ==> is_four_lines(r->Ok_0.as_string@),
{
    match word_list.is_valid() {
        Ok(_) => {
            let ghost words = word_list@;
            let ghost cells = cells_of(&hash_algorithm, words);
            let two_d_array: TwoDArray = match TwoDArray::new(word_list, &hash_algorithm) {
                Ok(two_d_array) => two_d_array,
                Err(e) => {
                    return Err(e);
                },
            };
            proof {
                lemma_generated_of_array(words, &hash_algorithm, two_d_array);
            }

            let one_d_packed_array: OneDPackedArray = match OneDPackedArray::new(&two_d_array) {
                Ok(one_d_packed_array) => one_d_packed_array,
                Err(e) => {
                    return Err(e);
                },
            };
            proof {
                let ds = pack_all(two_d_array)->Packed_0;
                lemma_table(one_d_packed_array, two_d_array, ds);
                lemma_perfect(words, &hash_algorithm, two_d_array, one_d_packed_array, ds);
            }

            verify(word_list, one_d_packed_array.get_rlt(), &hash_algorithm)?;

            Ok(
                HashData {
                    as_string: text(one_d_packed_array.get_rlt(), &hash_algorithm),
                    as_closure: HashClosure::new(one_d_packed_array, hash_algorithm),
                },
            )
        },
        Err(e) => Err(e),
    }
}

} // verus!
