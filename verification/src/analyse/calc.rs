//! Summary calculations over the per-level count tables: row maxima, per-level
//! totals, and the overall maximum.

use vstd::prelude::*;

use crate::analyse::aggregate::{row_nonneg, sum_row};
use crate::analyse::loglevel::{
    lemma_index_level_bijective, lemma_level_index_bijective, level_of_index, LogLevel,
    LogLevelCountMap, LogLevelCountVecMap,
};

verus! {

/// The largest per-bucket count recorded for `loglevel`.
pub fn max_log_occ(loglevel_count: &LogLevelCountVecMap, loglevel: &LogLevel) -> (m: i32)
    requires
        loglevel_count.wf(),
        loglevel_count.row(*loglevel).len() > 0,
    ensures
        forall|i: int|
            0 <= i < loglevel_count.row(*loglevel).len() ==> #[trigger] loglevel_count.row(
                *loglevel,
            )[i] <= m,
        exists|i: int|
            0 <= i < loglevel_count.row(*loglevel).len() && #[trigger] loglevel_count.row(
                *loglevel,
            )[i] == m,
{
    let row = loglevel_count.get_row(loglevel);
    let mut m: i32 = row[0];
    let mut i: usize = 1;
    while i < row.len()
        invariant
            1 <= i <= row@.len(),
            row@ == loglevel_count.row(*loglevel),
            forall|j: int| 0 <= j < i ==> #[trigger] row@[j] <= m,
            exists|j: int| 0 <= j < i && #[trigger] row@[j] == m,
        decreases row@.len() - i,
    {
        if row[i] > m {
            m = row[i];
        }
        i = i + 1;
    }
    m
}

/// The per-level totals: each level's counts summed across all buckets.
pub fn sum_of_log_occ(loglevel_count: &LogLevelCountVecMap) -> (m: LogLevelCountMap)
    requires
        loglevel_count.wf(),
        forall|l: LogLevel| row_nonneg(#[trigger] loglevel_count.row(l)),
        forall|l: LogLevel| sum_row(#[trigger] loglevel_count.row(l)) <= i32::MAX,
    ensures
        m.wf(),
        forall|l: LogLevel| #[trigger] m.spec_get(l) == sum_row(loglevel_count.row(l)),
{
    let mut counts: Vec<i32> = Vec::new();
    let mut li: usize = 0;
    while li < 9
        invariant
            0 <= li <= 9,
            counts@.len() == li,
            loglevel_count.wf(),
            forall|l: LogLevel| row_nonneg(#[trigger] loglevel_count.row(l)),
            forall|l: LogLevel| sum_row(#[trigger] loglevel_count.row(l)) <= i32::MAX,
            forall|j: int|
                0 <= j < li ==> #[trigger] counts@[j] == sum_row(
                    loglevel_count.row(level_of_index(j)),
                ),
        decreases 9 - li,
    {
        let row = &loglevel_count.counts[li];
        proof {
            lemma_index_level_bijective(li as int);
            assert(row@ == loglevel_count.row(level_of_index(li as int)));
        }
        let mut total: i32 = 0;
        let mut i: usize = 0;
        while i < row.len()
            invariant
                0 <= i <= row@.len(),
                row_nonneg(row@),
                sum_row(row@) <= i32::MAX,
                total == sum_row(row@.take(i as int)),
                0 <= total,
            decreases row@.len() - i,
        {
            proof {
                crate::analyse::aggregate::lemma_sum_row_take_step(row@, i as int);
                crate::analyse::aggregate::lemma_sum_row_take_le(row@, i + 1);
                assert(row_nonneg(row@.take(i + 1)));
                crate::analyse::aggregate::lemma_sum_row_nonneg(row@.take(i + 1));
            }
            total = total + row[i];
            i = i + 1;
        }
        proof {
            assert(row@.take(row@.len() as int) =~= row@);
        }
        counts.push(total);
        li = li + 1;
    }
    let m = LogLevelCountMap { counts };
    proof {
        assert forall|l: LogLevel| #[trigger] m.spec_get(l) == sum_row(
            loglevel_count.row(l),
        ) by {
            lemma_level_index_bijective(l);
        }
    }
    m
}

/// The largest per-level total in the table.
pub fn max_log_count(loglevel_count: &LogLevelCountMap) -> (m: i32)
    requires
        loglevel_count.wf(),
    ensures
        forall|l: LogLevel| #[trigger] loglevel_count.spec_get(l) <= m,
        exists|l: LogLevel| #[trigger] loglevel_count.spec_get(l) == m,
{
    let mut m: i32 = loglevel_count.counts[0];
    let mut i: usize = 1;
    while i < 9
        invariant
            1 <= i <= 9,
            loglevel_count.wf(),
            forall|j: int| 0 <= j < i ==> #[trigger] loglevel_count.counts@[j] <= m,
            exists|j: int| 0 <= j < i && #[trigger] loglevel_count.counts@[j] == m,
        decreases 9 - i,
    {
        if loglevel_count.counts[i] > m {
            m = loglevel_count.counts[i];
        }
        i = i + 1;
    }
    proof {
        assert forall|l: LogLevel| #[trigger] loglevel_count.spec_get(l) <= m by {
            lemma_level_index_bijective(l);
        }
        let j = choose|j: int| 0 <= j < 9 && #[trigger] loglevel_count.counts@[j] == m;
        lemma_index_level_bijective(j);
        assert(loglevel_count.spec_get(level_of_index(j)) == m);
    }
    m
}

} // verus!
