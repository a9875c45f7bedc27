//! Comparing two collections of records regardless of order.
use vstd::prelude::*;
use vstd::multiset::Multiset;
use vstd::seq_lib::*;

use crate::model::{records_view, Record, RecordView};

verus! {

/// The records that the indices in `idx` pick out of `rs`.
pub open spec fn picked(rs: Seq<Record>, idx: Seq<usize>) -> Seq<RecordView> {
    idx.map_values(|k: usize| rs[k as int]@)
}

/// Whether two collections hold the same records, each as many times, in any order.
pub fn is_equal_transactions(transactions_1: &[Record], transactions_2: &[Record]) -> (r: bool)
    ensures
        r == (records_view(transactions_1@).to_multiset() == records_view(
            transactions_2@,
        ).to_multiset()),
{
    broadcast use group_to_multiset_ensures, vstd::multiset::group_multiset_axioms;

    let ghost v1 = records_view(transactions_1@);
    let ghost v2 = records_view(transactions_2@);
    let mut rest: Vec<usize> = Vec::new();
    let mut k: usize = 0;
    while k < transactions_2.len()
        invariant
            k <= transactions_2@.len(),
            rest@.len() == k,
            forall|j: int| 0 <= j < k ==> rest@[j] == j,
        decreases transactions_2@.len() - k,
    {
        rest.push(k);
        k = k + 1;
    }
    proof {
        assert(picked(transactions_2@, rest@) =~= v2);
        assert(v1.take(0).to_multiset() =~= Multiset::<RecordView>::empty());
        assert(v1.take(0).to_multiset().add(picked(transactions_2@, rest@).to_multiset())
            =~= v2.to_multiset());
    }
    let mut i: usize = 0;
    while i < transactions_1.len()
        invariant
            i <= transactions_1@.len(),
            v1 == records_view(transactions_1@),
            v2 == records_view(transactions_2@),
            forall|j: int| 0 <= j < rest@.len() ==> #[trigger] rest@[j] < transactions_2@.len(),
            v1.take(i as int).to_multiset().add(picked(transactions_2@, rest@).to_multiset())
                == v2.to_multiset(),
        decreases transactions_1@.len() - i,
    {
        let ghost p = picked(transactions_2@, rest@);
        let mut j: usize = 0;
        while j < rest.len() && !(transactions_2[rest[j]] == transactions_1[i])
            invariant
                j <= rest@.len(),
                i < transactions_1@.len(),
                v1 == records_view(transactions_1@),
                p == picked(transactions_2@, rest@),
                forall|m: int| 0 <= m < rest@.len() ==> #[trigger] rest@[m] < transactions_2@.len(),
                forall|m: int| 0 <= m < j ==> p[m] != v1[i as int],
            decreases rest@.len() - j,
        {
            j = j + 1;
        }
        proof {
            assert(v1.take(i + 1) =~= v1.take(i as int).push(v1[i as int]));
        }
        if j == rest.len() {
            proof {
                let x = v1[i as int];
                assert(!p.contains(x));
                to_multiset_contains(p, x);
                assert(p.to_multiset().count(x) == 0);
                assert(v1 =~= v1.take(i + 1) + v1.skip(i + 1));
                lemma_multiset_commutative(v1.take(i + 1), v1.skip(i + 1));
                assert(v1.to_multiset().count(x) >= v1.take(i + 1).to_multiset().count(x));
                to_multiset_build(v1.take(i as int), x);
                assert(v1.take(i + 1).to_multiset().count(x) == v1.take(i as int).to_multiset().count(x) + 1);
                assert(v2.to_multiset().count(x) == v1.take(i as int).to_multiset().count(x));
                assert(v1.to_multiset().count(x) > v2.to_multiset().count(x));
            }
            return false;
        }
        proof {
            let x = v1[i as int];
            assert(p[j as int] == x);
            assert(p.contains(x));
            to_multiset_contains(p, x);
            assert(p.remove(j as int) =~= picked(transactions_2@, rest@.remove(j as int)));
            to_multiset_remove(p, j as int);
            to_multiset_build(v1.take(i as int), x);
            assert(v1.take(i + 1).to_multiset() == v1.take(i as int).to_multiset().insert(x));
            assert(p.remove(j as int).to_multiset() == p.to_multiset().remove(x));
            assert(v1.take(i + 1).to_multiset().add(p.remove(j as int).to_multiset())
                =~= v2.to_multiset());
        }
        rest.remove(j);
        i = i + 1;
    }
    proof {
        assert(v1.take(i as int) =~= v1);
        let p = picked(transactions_2@, rest@);
        to_multiset_len(v1);
        to_multiset_len(v2);
        to_multiset_len(p);
        if rest@.len() > 0 {
            assert(v2.to_multiset().len() == v1.to_multiset().len() + p.to_multiset().len());
            assert(v2.len() > v1.len());
            assert(v1.to_multiset() != v2.to_multiset());
        } else {
            assert(p.to_multiset() =~= Multiset::<RecordView>::empty());
            assert(v1.to_multiset().add(p.to_multiset()) =~= v1.to_multiset());
        }
    }
    rest.len() == 0
}

} // verus!
