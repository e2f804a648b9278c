//! Grouping a bulk fetch's result rows by their foreign key.
//!
//! One bulk query returns the rows for every key of a batch in one flat
//! list; the loader needs them as a mapping from key to rows.  The grouping
//! is a pure function of the row list: a key with no rows is simply absent
//! from the mapping, and each key's rows keep the order they arrived in.

use vstd::prelude::*;
use crate::record::Question;
use crate::value_map::{ValueMap, value_for};

verus! {

/// The predicate selecting the rows that belong to band `k`.
pub open spec fn by_band(k: u128) -> spec_fn(Question) -> bool {
    |q: Question| q.band_id == k
}

/// Groups fetched rows by their `band_id`.
///
/// The result maps exactly the keys that occur in `rows`, and maps each such
/// key to the subsequence of its rows, in their original order.
pub fn group_rows_by_key(rows: &Vec<Question>) -> (m: ValueMap)
    ensures
        m.wf(),
        forall|k: u128| #[trigger] m@.contains_key(k)
            <==> exists|i: int| 0 <= i < rows@.len() && rows@[i].band_id == k,
        forall|k: u128| value_for(m@, k) == rows@.filter(#[trigger] by_band(k)),
{
    let n = rows.len();
    let mut m = ValueMap::new();
    proof {
        assert forall|k: u128| value_for(m@, k) == rows@.take(0).filter(by_band(k)) by {
            reveal(Seq::filter);
            assert(rows@.take(0).len() == 0);
        }
    }
    for i in 0..n
        invariant
            n == rows@.len(),
            m.wf(),
            forall|k: u128| #[trigger] m@.contains_key(k)
                <==> exists|j: int| 0 <= j < i && rows@[j].band_id == k,
            forall|k: u128| value_for(m@, k) == rows@.take(i as int).filter(#[trigger] by_band(k)),
    {
        let q = rows[i].clone();
        let ghost m0 = m@;
        m.push_row(q.band_id, q);
        proof {
            let t0 = rows@.take(i as int);
            let t1 = rows@.take(i as int + 1);
            assert(t1.drop_last() =~= t0);
            assert(t1.last() == rows@[i as int]);
            assert(q == rows@[i as int]);
            assert forall|k: u128| value_for(m@, k) == t1.filter(#[trigger] by_band(k)) by {
                reveal(Seq::filter);
                assert(t1.filter(by_band(k)) == if by_band(k)(t1.last()) {
                    t0.filter(by_band(k)).push(t1.last())
                } else {
                    t0.filter(by_band(k))
                });
                if k == q.band_id {
                    assert(m@[k] == value_for(m0, k).push(q));
                } else {
                    assert(value_for(m@, k) == value_for(m0, k));
                }
            }
            assert forall|k: u128| #[trigger] m@.contains_key(k)
                <==> exists|j: int| 0 <= j < i + 1 && rows@[j].band_id == k by {
                if m@.contains_key(k) {
                    if k == q.band_id {
                        assert(rows@[i as int].band_id == k);
                    } else {
                        assert(m0.contains_key(k));
                    }
                } else {
                    assert(!m0.contains_key(k));
                    assert(k != q.band_id);
                }
            }
        }
    }
    proof {
        assert(rows@.take(n as int) =~= rows@);
    }
    m
}

} // verus!
