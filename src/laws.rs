//! What holds of grouping and totals across records, runs and batches.

use vstd::prelude::*;

use crate::entry::{line_record, values_of, Fault};
use crate::groups::{add_to, group_of, grouped, sum_of};
use crate::render::{data_text, lemma_before_lacks, lemma_line_of_parts};
use crate::text::{after, before};

verus! {

/// All values of a run of records, in order.
pub open spec fn all_values(recs: Seq<(i32, Seq<i32>)>) -> Seq<i32>
    decreases recs.len(),
{
    if recs.len() == 0 {
        seq![]
    } else {
        all_values(recs.drop_last()) + recs.last().1
    }
}

/// The sum of two lists one after the other is the sum of their sums.
pub proof fn lemma_sum_concat(x: Seq<i32>, y: Seq<i32>)
    ensures
        sum_of(x + y) == sum_of(x) + sum_of(y),
    decreases y.len(),
{
    if y.len() == 0 {
        assert(x + y =~= x);
    } else {
        assert((x + y).drop_last() =~= x + y.drop_last());
        lemma_sum_concat(x, y.drop_last());
    }
}

proof fn lemma_group_of_add(m: Map<i32, Seq<i32>>, k: i32, vs: Seq<i32>, j: i32)
    ensures
        group_of(add_to(m, k, vs), j) == if j == k {
            group_of(m, j) + vs
        } else {
            group_of(m, j)
        },
{
}

/// Grouping two runs one after the other gives, under each key, the list of the first
/// run followed by that of the second.
pub proof fn lemma_group_split(a: Seq<(i32, Seq<i32>)>, b: Seq<(i32, Seq<i32>)>, k: i32)
    ensures
        group_of(grouped(a + b), k) == group_of(grouped(a), k) + group_of(grouped(b), k),
    decreases b.len(),
{
    if b.len() == 0 {
        assert(a + b =~= a);
        assert(group_of(grouped(a), k) + group_of(grouped(b), k) =~= group_of(grouped(a), k));
    } else {
        let l = b.last();
        assert((a + b).drop_last() =~= a + b.drop_last());
        assert((a + b).last() == l);
        lemma_group_split(a, b.drop_last(), k);
        lemma_group_of_add(grouped(a + b.drop_last()), l.0, l.1, k);
        lemma_group_of_add(grouped(b.drop_last()), l.0, l.1, k);
        if k == l.0 {
            assert(group_of(grouped(a), k) + (group_of(grouped(b.drop_last()), k) + l.1)
                =~= group_of(grouped(a), k) + group_of(grouped(b.drop_last()), k) + l.1);
        }
    }
}

/// Aggregation splits over batches: the sum and count under a key for two runs taken
/// together are the sums and counts of each run added.
pub proof fn aggregation_splits(a: Seq<(i32, Seq<i32>)>, b: Seq<(i32, Seq<i32>)>, k: i32)
    ensures
        sum_of(group_of(grouped(a + b), k)) == sum_of(group_of(grouped(a), k)) + sum_of(
            group_of(grouped(b), k),
        ),
        group_of(grouped(a + b), k).len() == group_of(grouped(a), k).len() + group_of(
            grouped(b),
            k,
        ).len(),
{
    lemma_group_split(a, b, k);
    lemma_sum_concat(group_of(grouped(a), k), group_of(grouped(b), k));
}

/// For records that all share one key, the list under that key holds all their values,
/// so its sum and count are those of all the values.
pub proof fn mean_of_one_key(recs: Seq<(i32, Seq<i32>)>, k: i32)
    requires
        forall|i: int| 0 <= i < recs.len() ==> (#[trigger] recs[i]).0 == k,
    ensures
        group_of(grouped(recs), k) == all_values(recs),
        sum_of(group_of(grouped(recs), k)) == sum_of(all_values(recs)),
        group_of(grouped(recs), k).len() == all_values(recs).len(),
    decreases recs.len(),
{
    if recs.len() > 0 {
        let l = recs.last();
        assert(recs[recs.len() - 1].0 == k);
        assert forall|i: int| 0 <= i < recs.drop_last().len() implies (
        #[trigger] recs.drop_last()[i]).0 == k by {
            assert(recs.drop_last()[i] == recs[i]);
        }
        mean_of_one_key(recs.drop_last(), k);
        lemma_group_of_add(grouped(recs.drop_last()), l.0, l.1, k);
    }
}

/// The order of two runs does not change the sum or the count under any key.
pub proof fn mean_ignores_order(a: Seq<(i32, Seq<i32>)>, b: Seq<(i32, Seq<i32>)>, k: i32)
    ensures
        sum_of(group_of(grouped(a + b), k)) == sum_of(group_of(grouped(b + a), k)),
        group_of(grouped(a + b), k).len() == group_of(grouped(b + a), k).len(),
{
    aggregation_splits(a, b, k);
    aggregation_splits(b, a, k);
}

proof fn lemma_values_nonempty(s: Seq<char>)
    ensures
        values_of(s) matches Ok(vs) ==> vs.len() > 0,
{
    assert(values_of(s) == match crate::text::int_of(before(s, ',')) {
        None => Err(before(s, ',')),
        Some(v) => match after(s, ',') {
            None => Ok(seq![v]),
            Some(rest) => match values_of(rest) {
                Ok(vs) => Ok(seq![v] + vs),
                Err(t) => Err(t),
            },
        },
    });
}

/// The version field of a line: what stands between its first and second `|`.
pub open spec fn version_field(line: Seq<char>) -> Seq<char> {
    match after(line, '|') {
        Some(r) => before(r, '|'),
        None => seq![],
    }
}

/// Parsing a record line and writing its key and values back as a data segment round
/// trips: the line rebuilt from its timestamp text, its version and that segment reads
/// as the same key and the same values.
pub proof fn data_round_trip(line: Seq<char>)
    requires
        line_record(line) is Ok,
    ensures
        ({
            let (max, vs) = line_record(line)->Ok_0;
            line_record(
                before(line, '|') + seq!['|'] + version_field(line) + seq!['|'] + data_text(
                    max,
                    vs,
                ),
            ) == Ok::<(i32, Seq<i32>), Fault>((max, vs))
        }),
{
    let (max, vs) = line_record(line)->Ok_0;
    let r1 = after(line, '|')->Some_0;
    let r2 = after(r1, '|')->Some_0;
    let data = before(r2, '|');
    lemma_values_nonempty(after(data, ':')->Some_0);
    lemma_before_lacks(line, '|');
    lemma_before_lacks(r1, '|');
    lemma_line_of_parts(before(line, '|'), version_field(line), max, vs);
}

} // verus!
