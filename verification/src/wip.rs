//! Detect columns that exceed their WIP (work in progress) limits.
use crate::backlog::BacklogItem;
use crate::sorted::is_strictly_sorted;
use vstd::prelude::*;

verus! {

/// Per-column WIP limits.
#[derive(Debug)]
pub struct WipConfig {
    /// Whether the check is enabled.
    pub enabled: bool,
    /// `(column, limit)` pairs in column-name order, as the configuration map lists them.
    pub limits: Vec<(String, u32)>,
}

/// A column whose item count exceeds its WIP limit.
#[derive(Debug, PartialEq, Eq)]
pub struct WipViolation {
    /// Column (workflow status) name.
    pub column: String,
    /// Maximum number of items allowed in the column.
    pub limit: u32,
    /// Current number of items in the column (`> limit`).
    pub count: usize,
}

/// Number of items whose status is `column`.
pub open spec fn count_in(items: Seq<BacklogItem>, column: Seq<char>) -> nat
    decreases items.len(),
{
    if items.len() == 0 {
        0
    } else {
        count_in(items.drop_last(), column) + if items.last().status@ == column {
            1nat
        } else {
            0nat
        }
    }
}

/// The violations of `limits[..k]`, in order: `(column, limit, count)` where the count exceeds
/// the limit.
pub open spec fn violations_of(items: Seq<BacklogItem>, limits: Seq<(Seq<char>, u32)>, k: int) -> Seq<
    (Seq<char>, u32, nat),
>
    decreases k,
{
    if k <= 0 {
        seq![]
    } else {
        let (column, limit) = limits[k - 1];
        let c = count_in(items, column);
        if c > limit {
            violations_of(items, limits, k - 1).push((column, limit, c))
        } else {
            violations_of(items, limits, k - 1)
        }
    }
}

/// Whether an item has status `column`.
pub open spec fn status_is(column: Seq<char>) -> spec_fn(BacklogItem) -> bool {
    |it: BacklogItem| it.status@ == column
}

/// The items with status `column`.
pub open spec fn in_status(items: Seq<BacklogItem>, column: Seq<char>) -> Seq<BacklogItem> {
    items.filter(status_is(column))
}

/// A column's count is the number of items whose status is that column, whatever their parent
/// links, labels or other fields.
pub proof fn lemma_count_is_status_count(items: Seq<BacklogItem>, column: Seq<char>)
    ensures
        count_in(items, column) == in_status(items, column).len(),
    decreases items.len(),
{
    if items.len() > 0 {
        lemma_count_is_status_count(items.drop_last(), column);
        assert(items == items.drop_last().push(items.last()));
        items.drop_last().lemma_filter_push(items.last(), status_is(column));
    }
}

/// Every one of the first `k` limits whose column count passes it is reported.
proof fn lemma_violations_complete(items: Seq<BacklogItem>, limits: Seq<(Seq<char>, u32)>, k: int, j: int)
    requires
        0 <= j < k <= limits.len(),
        count_in(items, limits[j].0) > limits[j].1,
    ensures
        exists|i: int|
            0 <= i < violations_of(items, limits, k).len() && #[trigger] violations_of(items, limits, k)[i] == (
                limits[j].0,
                limits[j].1,
                count_in(items, limits[j].0),
            ),
    decreases k,
{
    let prev = violations_of(items, limits, k - 1);
    let column = limits[k - 1].0;
    let limit = limits[k - 1].1;
    let c = count_in(items, column);
    if c > limit {
        assert(violations_of(items, limits, k) == prev.push((column, limit, c)));
    } else {
        assert(violations_of(items, limits, k) == prev);
    }
    if j == k - 1 {
        assert(violations_of(items, limits, k)[prev.len() as int] == (column, limit, c));
    } else {
        lemma_violations_complete(items, limits, k - 1, j);
        let i = choose|i: int|
            0 <= i < prev.len() && #[trigger] prev[i] == (limits[j].0, limits[j].1, count_in(items, limits[j].0));
        assert(violations_of(items, limits, k)[i] == prev[i]);
    }
}

/// Every violation of the first `k` limits names a column whose count passes its limit.
proof fn lemma_violations_counted(items: Seq<BacklogItem>, limits: Seq<(Seq<char>, u32)>, k: int)
    ensures
        forall|i: int|
            0 <= i < violations_of(items, limits, k).len() ==> {
                let v = #[trigger] violations_of(items, limits, k)[i];
                v.2 == count_in(items, v.0) && v.2 > v.1
            },
    decreases k,
{
    if k > 0 {
        lemma_violations_counted(items, limits, k - 1);
        let prev = violations_of(items, limits, k - 1);
        let column = limits[k - 1].0;
        let limit = limits[k - 1].1;
        let c = count_in(items, column);
        if c > limit {
            assert(violations_of(items, limits, k) == prev.push((column, limit, c)));
        } else {
            assert(violations_of(items, limits, k) == prev);
        }
        assert forall|i: int| 0 <= i < violations_of(items, limits, k).len() implies {
            let v = #[trigger] violations_of(items, limits, k)[i];
            v.2 == count_in(items, v.0) && v.2 > v.1
        } by {
            if i < prev.len() {
                assert(violations_of(items, limits, k)[i] == prev[i]);
            }
        }
    }
}

/// The limits as plain values.
pub open spec fn limits_view(limits: Seq<(String, u32)>) -> Seq<(Seq<char>, u32)> {
    limits.map_values(|l: (String, u32)| (l.0@, l.1))
}

/// The columns that have a limit, in list order.
pub open spec fn limit_columns(limits: Seq<(String, u32)>) -> Seq<String> {
    limits.map_values(|l: (String, u32)| l.0)
}

/// The columns of the violations, in order.
pub open spec fn violation_columns(v: Seq<WipViolation>) -> Seq<String> {
    v.map_values(|x: WipViolation| x.column)
}

/// The violations as plain values.
pub open spec fn violations_view(v: Seq<WipViolation>) -> Seq<(Seq<char>, u32, nat)> {
    v.map_values(|x: WipViolation| (x.column@, x.limit, x.count as nat))
}

fn count_status(items: &[BacklogItem], column: &String) -> (r: usize)
    ensures
        r == count_in(items@, column@),
{
    let n = items.len();
    let mut c: usize = 0;
    for k in 0..n
        invariant
            n == items@.len(),
            c == count_in(items@.take(k as int), column@),
            c <= k,
    {
        assert(items@.take(k + 1).drop_last() =~= items@.take(k as int));
        if items[k].status == *column {
            c = c + 1;
        }
    }
    assert(items@.take(n as int) =~= items@);
    c
}

/// Compare each column limit with the column's item count and return the columns over their limit.
///
/// Always empty when the check is disabled; columns without a limit are unlimited; a count equal
/// to the limit is not a violation. The limits name each column once, in column-name order, so
/// the results come in column-name order too.
pub fn wip_violations(config: &WipConfig, items: &[BacklogItem]) -> (r: Vec<WipViolation>)
    requires
        is_strictly_sorted(limit_columns(config.limits@)),
    ensures
        is_strictly_sorted(violation_columns(r@)),
        !config.enabled ==> r@.len() == 0,
        config.enabled ==> violations_view(r@) == violations_of(
            items@,
            limits_view(config.limits@),
            config.limits@.len() as int,
        ),
        forall|i: int|
            0 <= i < r@.len() ==> (#[trigger] r@[i]).count == in_status(items@, r@[i].column@).len() && r@[i].count
                > r@[i].limit,
        config.enabled ==> forall|j: int|
            0 <= j < config.limits@.len() && in_status(items@, config.limits@[j].0@).len() > config.limits@[j].1
                ==> exists|i: int|
                0 <= i < r@.len() && (#[trigger] r@[i]).column@ == config.limits@[j].0@ && r@[i].limit
                    == config.limits@[j].1 && r@[i].count == in_status(items@, config.limits@[j].0@).len(),
{
    let mut out: Vec<WipViolation> = Vec::new();
    if !config.enabled {
        return out;
    }
    let ghost lv = limits_view(config.limits@);
    let m = config.limits.len();
    for k in 0..m
        invariant
            m == config.limits@.len(),
            lv == limits_view(config.limits@),
            violations_view(out@) == violations_of(items@, lv, k as int),
            is_strictly_sorted(limit_columns(config.limits@)),
            is_strictly_sorted(violation_columns(out@)),
            forall|i: int|
                0 <= i < out@.len() ==> exists|j: int| 0 <= j < k && (#[trigger] out@[i]).column@ == config.limits@[j].0@,
    {
        let column = &config.limits[k].0;
        let limit = config.limits[k].1;
        let count = count_status(items, column);
        assert(lv[k as int] == (column@, limit));
        let ghost before = out@;
        if count as u64 > limit as u64 {
            out.push(WipViolation { column: column.clone(), limit, count });
            assert(violations_view(out@) =~= violations_view(before).push((column@, limit, count as nat)));
            proof {
                let keys = limit_columns(config.limits@);
                let cols = violation_columns(out@);
                assert(keys[k as int] == config.limits@[k as int].0);
                assert forall|i: int, i2: int| 0 <= i < i2 < cols.len() implies crate::sorted::str_leq(
                    (#[trigger] cols[i])@,
                    (#[trigger] cols[i2])@,
                ) && cols[i]@ != cols[i2]@ by {
                    if i2 == cols.len() - 1 {
                        assert(cols[i] == before[i].column);
                        assert(before[i] == out@[i]);
                        let j = choose|j: int| 0 <= j < k && (#[trigger] before[i]).column@ == config.limits@[j].0@;
                        assert(keys[j] == config.limits@[j].0);
                        assert(crate::sorted::str_leq(keys[j]@, keys[k as int]@));
                    } else {
                        assert(violation_columns(before)[i] == cols[i]);
                        assert(violation_columns(before)[i2] == cols[i2]);
                    }
                }
                assert forall|i: int| 0 <= i < out@.len() implies exists|j: int|
                    0 <= j < k + 1 && (#[trigger] out@[i]).column@ == config.limits@[j].0@ by {
                    if i < before.len() {
                        assert(out@[i] == before[i]);
                        let j = choose|j: int| 0 <= j < k && (#[trigger] before[i]).column@ == config.limits@[j].0@;
                    } else {
                        assert(out@[i].column@ == config.limits@[k as int].0@);
                    }
                }
            }
        }
    }
    proof {
        lemma_violations_counted(items@, lv, m as int);
        assert forall|i: int| 0 <= i < out@.len() implies (#[trigger] out@[i]).count == in_status(
            items@,
            out@[i].column@,
        ).len() && out@[i].count > out@[i].limit by {
            assert(violations_view(out@)[i] == (out@[i].column@, out@[i].limit, out@[i].count as nat));
            lemma_count_is_status_count(items@, out@[i].column@);
        }
        assert forall|j: int|
            0 <= j < config.limits@.len() && in_status(items@, config.limits@[j].0@).len() > config.limits@[j].1
                implies exists|i: int|
                0 <= i < out@.len() && (#[trigger] out@[i]).column@ == config.limits@[j].0@ && out@[i].limit
                    == config.limits@[j].1 && out@[i].count == in_status(items@, config.limits@[j].0@).len() by {
            lemma_count_is_status_count(items@, config.limits@[j].0@);
            assert(lv[j] == (config.limits@[j].0@, config.limits@[j].1));
            lemma_violations_complete(items@, lv, m as int, j);
            let i = choose|i: int|
                0 <= i < violations_of(items@, lv, m as int).len() && #[trigger] violations_of(items@, lv, m as int)[i]
                    == (lv[j].0, lv[j].1, count_in(items@, lv[j].0));
            assert(violations_view(out@)[i] == (out@[i].column@, out@[i].limit, out@[i].count as nat));
        }
    }
    out
}

} // verus!
