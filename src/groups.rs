//! Grouping of record values by key, and the per-key totals that give their means.

use vstd::prelude::*;

use crate::entry::{line_record, Entry, Fault, ParseEntryError};

verus! {

/// The list under `k`; empty where `k` has none.
pub open spec fn group_of(m: Map<i32, Seq<i32>>, k: i32) -> Seq<i32> {
    if m.contains_key(k) {
        m[k]
    } else {
        seq![]
    }
}

/// `m` with `values` appended to the list under `k`, which is created when new.
pub open spec fn add_to(m: Map<i32, Seq<i32>>, k: i32, values: Seq<i32>) -> Map<i32, Seq<i32>> {
    m.insert(k, group_of(m, k) + values)
}

/// The lists that a run of records builds, each key's values in the order they came.
pub open spec fn grouped(recs: Seq<(i32, Seq<i32>)>) -> Map<i32, Seq<i32>>
    decreases recs.len(),
{
    if recs.len() == 0 {
        Map::empty()
    } else {
        add_to(grouped(recs.drop_last()), recs.last().0, recs.last().1)
    }
}

/// The records of a run of lines, or the fault of the first line that is not one.
pub open spec fn records_of(lines: Seq<String>) -> Result<Seq<(i32, Seq<i32>)>, Fault>
    decreases lines.len(),
{
    if lines.len() == 0 {
        Ok(seq![])
    } else {
        match records_of(lines.drop_last()) {
            Err(f) => Err(f),
            Ok(rs) => match line_record(lines.last()@) {
                Err(f) => Err(f),
                Ok(r) => Ok(rs.push(r)),
            },
        }
    }
}

pub open spec fn sum_of(s: Seq<i32>) -> int
    decreases s.len(),
{
    if s.len() == 0 {
        0
    } else {
        sum_of(s.drop_last()) + s.last() as int
    }
}

/// The sum and the number of the values under one key; their quotient is the key's mean.
#[derive(Clone, Copy, Debug, PartialEq, Eq, Structural)]
pub struct GroupTotal {
    pub max: i32,
    pub sum: i128,
    pub count: usize,
}

/// `t` holds the sum and count of the list under its key in `m`.
pub open spec fn describes(m: Map<i32, Seq<i32>>, t: GroupTotal) -> bool {
    &&& m.contains_key(t.max)
    &&& t.sum == sum_of(m[t.max])
    &&& t.count == m[t.max].len()
}

/// `out` holds one total for each key of `m`, in ascending order of key.
pub open spec fn is_summary(m: Map<i32, Seq<i32>>, out: Seq<GroupTotal>) -> bool {
    &&& forall|a: int, b: int| 0 <= a < b < out.len() ==> out[a].max < out[b].max
    &&& forall|a: int| 0 <= a < out.len() ==> describes(m, #[trigger] out[a])
    &&& forall|k: i32| m.contains_key(k) ==> exists|a: int| 0 <= a < out.len() && #[trigger] out[a].max == k
}

/// Puts `t` into `out` where its key belongs, keeping the keys ascending.
fn insert_sorted(out: &mut Vec<GroupTotal>, t: GroupTotal)
    requires
        forall|a: int, b: int| 0 <= a < b < old(out)@.len() ==> old(out)@[a].max < old(out)@[b].max,
        forall|a: int| 0 <= a < old(out)@.len() ==> old(out)@[a].max != t.max,
    ensures
        forall|a: int, b: int| 0 <= a < b < final(out)@.len() ==> final(out)@[a].max < final(out)@[b].max,
        forall|a: int|
            #![trigger old(out)@[a]]
            0 <= a < old(out)@.len() ==> exists|b: int|
                0 <= b < final(out)@.len() && #[trigger] final(out)@[b] == old(out)@[a],
        exists|b: int| 0 <= b < final(out)@.len() && final(out)@[b] == t,
        forall|b: int|
            #![trigger final(out)@[b]]
            0 <= b < final(out)@.len() ==> final(out)@[b] == t || exists|a: int|
                0 <= a < old(out)@.len() && #[trigger] old(out)@[a] == final(out)@[b],
{
    let mut pos: usize = 0;
    while pos < out.len() && out[pos].max < t.max
        invariant
            pos <= out@.len(),
            forall|a: int| 0 <= a < pos ==> out@[a].max < t.max,
        decreases out@.len() - pos,
    {
        pos = pos + 1;
    }
    let ghost prior = out@;
    out.insert(pos, t);
    proof {
        prior.insert_ensures(pos as int, t);
        assert forall|a: int, b: int| 0 <= a < b < out@.len() implies out@[a].max < out@[b].max by {
            if b < pos {
                assert(out@[a] == prior[a] && out@[b] == prior[b]);
            } else if b == pos {
                assert(out@[a] == prior[a]);
            } else if a < pos {
                assert(out@[a] == prior[a] && out@[b] == prior[b - 1]);
            } else if a == pos {
                assert(out@[b] == prior[b - 1]);
                assert(prior[pos as int].max <= prior[b - 1].max);
            } else {
                assert(out@[a] == prior[a - 1] && out@[b] == prior[b - 1]);
            }
        }
        assert forall|a: int| #![trigger prior[a]] 0 <= a < prior.len() implies exists|b: int|
            0 <= b < out@.len() && #[trigger] out@[b] == prior[a] by {
            if a < pos {
                assert(out@[a] == prior[a]);
            } else {
                assert(out@[a + 1] == prior[a]);
            }
        }
        assert(out@[pos as int] == t);
        assert forall|b: int| #![trigger out@[b]] 0 <= b < out@.len() implies out@[b] == t
            || exists|a: int| 0 <= a < prior.len() && #[trigger] prior[a] == out@[b] by {
            if b < pos {
                assert(out@[b] == prior[b]);
            } else if b > pos {
                assert(out@[b] == prior[b - 1]);
            }
        }
    }
}

/// The sum of `values`, wide enough that it cannot overflow.
pub fn total(values: &[i32]) -> (r: i128)
    ensures
        r == sum_of(values@),
{
    let mut acc: i128 = 0;
    let mut i: usize = 0;
    while i < values.len()
        invariant
            i <= values@.len(),
            acc == sum_of(values@.subrange(0, i as int)),
            -(i as int) * 2147483648 <= acc <= (i as int) * 2147483648,
        decreases values@.len() - i,
    {
        assert(values@.subrange(0, i as int + 1).drop_last() =~= values@.subrange(0, i as int));
        acc = acc + values[i] as i128;
        i = i + 1;
    }
    assert(values@.subrange(0, i as int) =~= values@);
    acc
}

/// The values of all records seen so far, under their keys.
#[verifier::external_body]
pub struct ValueGroups {
    map: hashbrown::HashMap<i32, Vec<i32>>,
}

/// What a `ValueGroups` holds: each key with its values in the order they were added.
pub uninterp spec fn groups_in(g: ValueGroups) -> Map<i32, Seq<i32>>;

impl ValueGroups {
    /// Relies on hashbrown's `HashMap::new`: a map without keys.
    #[verifier::external_body]
    fn empty() -> (r: ValueGroups)
        ensures
            groups_in(r).dom().is_empty(),
    {
        ValueGroups { map: hashbrown::HashMap::new() }
    }

    /// Relies on hashbrown's `HashMap::entry` and `Entry::or_default`: the list under
    /// `key`, made empty where the key is new, which `Vec::extend` then lengthens by
    /// `values` in order.
    #[verifier::external_body]
    fn append(&mut self, key: i32, values: Vec<i32>)
        ensures
            groups_in(*final(self)) == add_to(groups_in(*old(self)), key, values@),
    {
        self.map.entry(key).or_default().extend(values);
    }

    /// Relies on hashbrown's `HashMap::into_iter`: each key once, with its list, in an
    /// order the map does not promise.
    #[verifier::external_body]
    fn into_pairs(self) -> (r: Vec<(i32, Vec<i32>)>)
        ensures
            forall|a: int, b: int| 0 <= a < b < r@.len() ==> r@[a].0 != r@[b].0,
            forall|a: int|
                0 <= a < r@.len() ==> groups_in(self).contains_key(#[trigger] r@[a].0)
                    && groups_in(self)[r@[a].0] == r@[a].1@,
            forall|k: i32|
                groups_in(self).contains_key(k) ==> exists|a: int|
                    0 <= a < r@.len() && #[trigger] r@[a].0 == k,
    {
        self.map.into_iter().collect()
    }

    /// No keys yet.
    pub fn new() -> (r: ValueGroups)
        ensures
            groups_in(r) == Map::<i32, Seq<i32>>::empty(),
    {
        ValueGroups::empty()
    }

    /// Appends the values of `e` to the list under its key.
    pub fn add_entry(&mut self, e: Entry)
        ensures
            groups_in(*final(self)) == add_to(groups_in(*old(self)), e.max, e.values@),
    {
        self.append(e.max, e.values);
    }

    /// Reads `line` and adds its record; a line that is no record leaves the groups as
    /// they were.
    pub fn add_line(&mut self, line: &str) -> (r: Result<(), ParseEntryError>)
        ensures
            match line_record(line@) {
                Ok((m, vs)) => r is Ok && groups_in(*final(self)) == add_to(
                    groups_in(*old(self)),
                    m,
                    vs,
                ),
                Err(f) => (r matches Err(e) && e.fault() == f) && groups_in(*final(self))
                    == groups_in(*old(self)),
            },
    {
        match Entry::parse(line) {
            Ok(e) => {
                self.add_entry(e);
                Ok(())
            },
            Err(e) => Err(e),
        }
    }

    /// The sum and count of each key's values, in ascending order of key.
    pub fn into_totals(self) -> (r: Vec<GroupTotal>)
        ensures
            is_summary(groups_in(self), r@),
    {
        let ghost m = groups_in(self);
        let pairs = self.into_pairs();
        let mut out: Vec<GroupTotal> = Vec::new();
        let mut p: usize = 0;
        while p < pairs.len()
            invariant
                p <= pairs@.len(),
                forall|a: int, b: int| 0 <= a < b < pairs@.len() ==> pairs@[a].0 != pairs@[b].0,
                forall|a: int|
                    0 <= a < pairs@.len() ==> m.contains_key(#[trigger] pairs@[a].0)
                        && m[pairs@[a].0] == pairs@[a].1@,
                forall|a: int, b: int| 0 <= a < b < out@.len() ==> out@[a].max < out@[b].max,
                forall|a: int|
                    #![trigger out@[a]]
                    0 <= a < out@.len() ==> describes(m, out@[a]) && exists|q: int|
                        0 <= q < p && #[trigger] pairs@[q].0 == out@[a].max,
                forall|q: int|
                    #![trigger pairs@[q]]
                    0 <= q < p ==> exists|a: int|
                        0 <= a < out@.len() && #[trigger] out@[a].max == pairs@[q].0,
            decreases pairs@.len() - p,
        {
            let key = pairs[p].0;
            let t = GroupTotal { max: key, sum: total(pairs[p].1.as_slice()), count: pairs[p].1.len() };
            proof {
                assert forall|a: int| 0 <= a < out@.len() implies out@[a].max != key by {
                    let q = choose|q: int| 0 <= q < p && pairs@[q].0 == #[trigger] out@[a].max;
                    assert(pairs@[q].0 != pairs@[p as int].0);
                }
            }
            let ghost prior = out@;
            insert_sorted(&mut out, t);
            proof {
                assert forall|a: int| #![trigger out@[a]] 0 <= a < out@.len() implies describes(m, out@[a])
                    && exists|q: int| 0 <= q < p + 1 && #[trigger] pairs@[q].0 == out@[a].max by {
                    if out@[a] != t {
                        let b = choose|b: int| 0 <= b < prior.len() && #[trigger] prior[b] == out@[a];
                        assert(describes(m, prior[b]));
                        let q = choose|q: int| 0 <= q < p && pairs@[q].0 == #[trigger] prior[b].max;
                        assert(pairs@[q].0 == out@[a].max);
                    } else {
                        assert(pairs@[p as int].0 == out@[a].max);
                    }
                }
                assert forall|q: int| #![trigger pairs@[q]] 0 <= q < p + 1 implies exists|a: int|
                    0 <= a < out@.len() && #[trigger] out@[a].max == pairs@[q].0 by {
                    if q == p {
                        let b = choose|b: int| 0 <= b < out@.len() && #[trigger] out@[b] == t;
                        assert(out@[b].max == pairs@[q].0);
                    } else {
                        let a = choose|a: int| 0 <= a < prior.len() && #[trigger] prior[a].max == pairs@[q].0;
                        let b = choose|b: int| 0 <= b < out@.len() && #[trigger] out@[b] == prior[a];
                        assert(out@[b].max == pairs@[q].0);
                    }
                }
            }
            p = p + 1;
        }
        proof {
            assert forall|k: i32| m.contains_key(k) implies exists|a: int|
                0 <= a < out@.len() && #[trigger] out@[a].max == k by {
                let q = choose|q: int| 0 <= q < pairs@.len() && #[trigger] pairs@[q].0 == k;
                assert(pairs@[q].0 == k);
            }
        }
        out
    }
}

proof fn lemma_records_fault_stays(lines: Seq<String>, i: int)
    requires
        0 <= i <= lines.len(),
        records_of(lines.subrange(0, i)) is Err,
    ensures
        records_of(lines) == records_of(lines.subrange(0, i)),
    decreases lines.len() - i,
{
    if i == lines.len() {
        assert(lines.subrange(0, i) =~= lines);
    } else {
        assert(lines.subrange(0, i + 1).drop_last() =~= lines.subrange(0, i));
        lemma_records_fault_stays(lines, i + 1);
    }
}

/// Reads every line, groups the values of the records by key and totals each group;
/// the first line that is no record stops the run with its fault.
pub fn aggregate_lines(lines: &Vec<String>) -> (r: Result<Vec<GroupTotal>, ParseEntryError>)
    ensures
        match records_of(lines@) {
            Ok(rs) => r matches Ok(out) && is_summary(grouped(rs), out@),
            Err(f) => r matches Err(e) && e.fault() == f,
        },
{
    let mut g = ValueGroups::new();
    let ghost recs: Seq<(i32, Seq<i32>)> = seq![];
    let mut i: usize = 0;
    while i < lines.len()
        invariant
            i <= lines@.len(),
            records_of(lines@.subrange(0, i as int)) == Ok::<Seq<(i32, Seq<i32>)>, Fault>(recs),
            groups_in(g) == grouped(recs),
        decreases lines@.len() - i,
    {
        assert(lines@.subrange(0, i as int + 1).drop_last() =~= lines@.subrange(0, i as int));
        assert(lines@.subrange(0, i as int + 1).last() == lines@[i as int]);
        match g.add_line(lines[i].as_str()) {
            Err(e) => {
                proof {
                    lemma_records_fault_stays(lines@, i as int + 1);
                }
                return Err(e);
            },
            Ok(()) => {
                proof {
                    let r = line_record(lines@[i as int]@)->Ok_0;
                    assert(grouped(recs.push(r)) == add_to(grouped(recs), r.0, r.1)) by {
                        assert(recs.push(r).drop_last() =~= recs);
                    }
                    recs = recs.push(r);
                }
            },
        }
        i = i + 1;
    }
    assert(lines@.subrange(0, i as int) =~= lines@);
    Ok(g.into_totals())
}

} // verus!
