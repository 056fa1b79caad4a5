//! Sequences that hold each of the numbers `0`, .., `len - 1` once.

use vstd::prelude::*;

verus! {

/// No value occurs twice.
pub open spec fn distinct(values: Seq<int>) -> bool {
    forall|i: int, j: int| 0 <= i < j < values.len() ==> values[i] != values[j]
}

/// Every value is one of `0`, .., `n - 1`.
pub open spec fn in_range(values: Seq<int>, n: int) -> bool {
    forall|i: int| 0 <= i < values.len() ==> 0 <= #[trigger] values[i] < n
}

/// The values are `0`, .., `values.len() - 1` in some order.
pub open spec fn is_permutation(values: Seq<int>) -> bool {
    &&& distinct(values)
    &&& in_range(values, values.len() as int)
    &&& forall|p: int| 0 <= p < values.len() ==> #[trigger] values.contains(p)
}

/// As many different values as there are slots fill every slot.
pub proof fn lemma_pigeonhole(values: Seq<int>)
    requires
        distinct(values),
        in_range(values, values.len() as int),
    ensures
        is_permutation(values),
    decreases values.len(),
{
    let n = values.len() as int;
    if n > 0 {
        let top = n - 1;
        if !values.contains(top) {
            let shorter = values.drop_last();
            assert forall|i: int| 0 <= i < shorter.len() implies
                0 <= #[trigger] shorter[i] < shorter.len() by {
                assert(shorter[i] == values[i]);
                if values[i] == top {
                    assert(values.contains(top));
                }
            }
            assert forall|i: int, j: int| 0 <= i < j < shorter.len() implies
                shorter[i] != shorter[j] by {
                assert(values[i] != values[j]);
            }
            lemma_pigeonhole(shorter);
            let last = values[n - 1];
            if last == top {
                assert(values.contains(top));
            }
            assert(shorter.contains(last));
            let j = choose|j: int| 0 <= j < shorter.len() && shorter[j] == last;
            assert(values[j] == values[n - 1]);
            assert(false);
        }
        let m = choose|m: int| 0 <= m < n && values[m] == top;
        let rest = values.remove(m);
        assert forall|i: int| 0 <= i < rest.len() implies 0 <= #[trigger] rest[i] < rest.len() by {
            let at = if i < m {
                i
            } else {
                i + 1
            };
            assert(rest[i] == values[at]);
            if at < m {
                assert(values[at] != values[m]);
            } else {
                assert(values[m] != values[at]);
            }
        }
        assert forall|i: int, j: int| 0 <= i < j < rest.len() implies rest[i] != rest[j] by {
            let ai = if i < m {
                i
            } else {
                i + 1
            };
            let aj = if j < m {
                j
            } else {
                j + 1
            };
            assert(values[ai] != values[aj]);
        }
        lemma_pigeonhole(rest);
        assert forall|p: int| 0 <= p < n implies #[trigger] values.contains(p) by {
            if p == top {
            } else {
                assert(rest.contains(p));
                let j = choose|j: int| 0 <= j < rest.len() && rest[j] == p;
                let at = if j < m {
                    j
                } else {
                    j + 1
                };
                assert(values[at] == p);
            }
        }
    }
}

} // verus!
