//! What holds of the construction as a whole, stated over its functions.

use vstd::prelude::*;
use crate::error::Error;
use crate::generate::{
    generate_hash, generated, lemma_pseudo_code_reads_back, slots_in, table_in, HashData,
};
use crate::hash_algorithm::HashAlgorithm;
use crate::one_d_packed_array::{lemma_same_packing, lemma_table, pack_all, OneDPackedArray};
use crate::rlt::{lemma_parsed_joined, parsed, Rlt};
use crate::two_d_array::{
    cells_of, collision_free, hash_failure, hashable, lemma_tabulated_alike, same_shape, TwoDArray,
};
use crate::word_list::WordList;

verus! {

/// Two builds from word lists with the same words and from the same hash
/// algorithm end alike: both fail with the same error, or both give a
/// hash, and then the two hashes have the same pseudo code and the same
/// value for every word, whether it is in the list or not.
pub proof fn lemma_builds_agree<H: HashAlgorithm>(
    first_list: WordList,
    second_list: WordList,
    hash_algorithm: H,
    first: Result<HashData<H>, Error>,
    second: Result<HashData<H>, Error>,
)
    requires
        first_list@ == second_list@,
        call_ensures(generate_hash::<H>, (&first_list, hash_algorithm), first),
        call_ensures(generate_hash::<H>, (&second_list, hash_algorithm), second),
    ensures
        first is Ok <==> second is Ok,
        first is Err ==> first->Err_0@ == second->Err_0@,
        first is Ok ==> first->Ok_0.as_string@ == second->Ok_0.as_string@,
        first is Ok ==> forall|word: Seq<char>|
            first->Ok_0.as_closure.spec_call(word) == second->Ok_0.as_closure.spec_call(word),
{
}

/// The row lookup table depends on the cells that are in use, and on
/// nothing else: two arrays that were made for as many words, and in which
/// the same cells are in use, are packed alike. Both packings fail with the
/// same error, or both succeed with the same row lookup table.
pub proof fn lemma_rlt_depends_on_cells(
    a: TwoDArray,
    b: TwoDArray,
    first: Result<OneDPackedArray, Error>,
    second: Result<OneDPackedArray, Error>,
)
    requires
        a.wf(),
        b.wf(),
        same_shape(a, b),
        a.num_entries() == b.num_entries(),
        call_ensures(OneDPackedArray::new, (&a,), first),
        call_ensures(OneDPackedArray::new, (&b,), second),
    ensures
        first is Ok <==> second is Ok,
        first is Err ==> first->Err_0@ == second->Err_0@,
        first is Ok ==> first->Ok_0.rlt().table() == second->Ok_0.rlt().table(),
        first is Ok ==> first->Ok_0.rlt().num_entries() == second->Ok_0.rlt().num_entries(),
{
    lemma_same_packing(a, b);
    if first is Ok {
        let ds = pack_all(a)->Packed_0;
        lemma_table(first->Ok_0, a, ds);
        lemma_table(second->Ok_0, b, ds);
    }
}

/// The row lookup table does not depend on the order of the words: where
/// one word list holds the words of another in another order, and the
/// two-dimensional array of the one can be made, that of the other can be
/// made too, and the two arrays are packed alike.
pub proof fn lemma_rlt_ignores_word_order<H: HashAlgorithm>(
    first_list: WordList,
    second_list: WordList,
    hash_algorithm: H,
    a: Result<TwoDArray, Error>,
    b: Result<TwoDArray, Error>,
    first: Result<OneDPackedArray, Error>,
    second: Result<OneDPackedArray, Error>,
)
    requires
        first_list@.len() > 0,
        first_list@.to_multiset() == second_list@.to_multiset(),
        call_ensures(TwoDArray::new::<H>, (&first_list, &hash_algorithm), a),
        call_ensures(TwoDArray::new::<H>, (&second_list, &hash_algorithm), b),
        a is Ok,
        call_ensures(OneDPackedArray::new, (&a->Ok_0,), first),
        b is Ok ==> call_ensures(OneDPackedArray::new, (&b->Ok_0,), second),
    ensures
        b is Ok,
        first is Ok <==> second is Ok,
        first is Err ==> first->Err_0@ == second->Err_0@,
        first is Ok ==> first->Ok_0.rlt().table() == second->Ok_0.rlt().table(),
        first is Ok ==> first->Ok_0.rlt().num_entries() == second->Ok_0.rlt().num_entries(),
{
    let one = first_list@;
    let other = second_list@;
    let cells = cells_of(&hash_algorithm, one);
    let others = cells_of(&hash_algorithm, other);
    one.to_multiset_ensures();
    other.to_multiset_ensures();
    assert forall|word: Seq<char>| one.contains(word) == other.contains(word) by {
        assert(one.contains(word) <==> one.to_multiset().count(word) > 0);
        assert(other.contains(word) <==> other.to_multiset().count(word) > 0);
    }
    // What holds of every word of the one list holds of every word of the
    // other.
    assert(hashable(&hash_algorithm, one));
    assert forall|i: int| 0 <= i < other.len() implies hash_failure(
        &hash_algorithm,
        #[trigger] other[i],
    ) is None by {
        assert(one.contains(other[i]));
        let j = choose|j: int| 0 <= j < one.len() && one[j] == other[i];
        assert(hash_failure(&hash_algorithm, one[j]) is None);
    }
    assert(collision_free(cells));
    assert forall|cell: (usize, usize)| cells.contains(cell) == others.contains(cell) by {
        if cells.contains(cell) {
            let i = choose|i: int| 0 <= i < cells.len() && cells[i] == cell;
            assert(other.contains(one[i]));
            let j = choose|j: int| 0 <= j < other.len() && other[j] == one[i];
            assert(others[j] == cell);
        }
        if others.contains(cell) {
            let i = choose|i: int| 0 <= i < others.len() && others[i] == cell;
            assert(one.contains(other[i]));
            let j = choose|j: int| 0 <= j < one.len() && one[j] == other[i];
            assert(cells[j] == cell);
        }
    }
    // No word stands twice in the one list, so none does in the other, and
    // different words of the one list have different cells.
    assert(one.no_duplicates()) by {
        assert forall|i: int, j: int|
            0 <= i < one.len() && 0 <= j < one.len() && i != j implies one[i] != one[j] by {
            if i < j {
                assert(cells[i] != cells[j]);
            } else {
                assert(cells[j] != cells[i]);
            }
        }
    }
    one.lemma_multiset_has_no_duplicates();
    other.lemma_multiset_has_no_duplicates_conv();
    assert forall|i: int, j: int| 0 <= i < j < others.len() implies others[i] != others[j] by {
        assert(other[i] != other[j]);
        assert(one.contains(other[i]));
        assert(one.contains(other[j]));
        let p = choose|p: int| 0 <= p < one.len() && one[p] == other[i];
        let q = choose|q: int| 0 <= q < one.len() && one[q] == other[j];
        if p < q {
            assert(cells[p] != cells[q]);
        } else {
            assert(cells[q] != cells[p]);
        }
    }
    lemma_tabulated_alike(a->Ok_0, b->Ok_0, cells, others);
    lemma_rlt_depends_on_cells(a->Ok_0, b->Ok_0, first, second);
}

/// The text of a row lookup table, parsed back into integers, is the table.
pub proof fn lemma_rlt_text_round_trip(rlt: Rlt, text: String)
    requires
        call_ensures(Rlt::get_as_text, (&rlt,), text),
    ensures
        parsed(text@).len() == rlt.table().len(),
        forall|r: int| 0 <= r < rlt.table().len() ==> parsed(text@)[r] == rlt.table()[r],
{
    lemma_parsed_joined(rlt.table(), 0);
}

/// The pseudo code of a hash holds the hash: the text of its table, parsed
/// back into integers, is the table from which the closure computes, and
/// its number of slots is the number of words.
pub proof fn lemma_pseudo_code_round_trip<H: HashAlgorithm>(
    word_list: WordList,
    hash_algorithm: H,
    built: Result<HashData<H>, Error>,
)
    requires
        call_ensures(generate_hash::<H>, (&word_list, hash_algorithm), built),
        built is Ok,
    ensures
        parsed(table_in(built->Ok_0.as_string@)).len()
            == built->Ok_0.as_closure.rlt().table().len(),
        forall|r: int|
            0 <= r < built->Ok_0.as_closure.rlt().table().len() ==> parsed(
                table_in(built->Ok_0.as_string@),
            )[r] == built->Ok_0.as_closure.rlt().table()[r],
        slots_in(built->Ok_0.as_string@) == word_list@.len(),
{
    let table = built->Ok_0.as_closure.rlt().table();
    assert(generated(word_list@, &hash_algorithm) is Ok);
    lemma_pseudo_code_reads_back(
        table,
        hash_algorithm.spec_h1_text(),
        hash_algorithm.spec_h2_text(),
        word_list@.len(),
    );
    lemma_parsed_joined(table, 0);
}

} // verus!
