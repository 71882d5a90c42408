//! Cycle time (start to completion) and lead time (creation to completion) of completed items.
//!
//! Durations are nanoseconds. A summary gives the count, the mean of the durations' whole seconds
//! (truncated toward zero), the median of their whole seconds (the middle value, or the mean of the
//! two middle values truncated toward zero), both as whole seconds, and the exact minimum and
//! maximum.
use crate::backlog::{ids_view, opt_str, BacklogItem, IdView, ItemId};
use crate::repair::id_lt;
use crate::text::text_eq;
use vstd::prelude::*;

verus! {

/// Which completed items a report covers.
#[derive(Debug, Default)]
pub struct CycleTimeFilter {
    /// Only items of this sprint.
    pub sprint: Option<String>,
    /// Only items completed at or after this time.
    pub since: Option<i64>,
    /// Only items completed at or before this time.
    pub until: Option<i64>,
}

/// Summary statistics of a list of durations, in nanoseconds.
#[derive(Debug, PartialEq, Eq)]
pub struct DurationSummary {
    pub count: usize,
    pub mean: i128,
    pub median: i128,
    pub min: i128,
    pub max: i128,
}

/// Cycle and lead times of the completed items a filter selects.
#[derive(Debug, PartialEq, Eq)]
pub struct CycleTimeReport {
    /// Start to completion, over the items with a start time.
    pub cycle: Option<DurationSummary>,
    /// Creation to completion.
    pub lead: Option<DurationSummary>,
    /// Completed items without a start time, in ID order.
    pub missing_start: Vec<ItemId>,
    /// How many items the filter selects.
    pub completed: usize,
}

/// A filter as values: the sprint, the earliest and the latest completion time.
pub type FilterView = (Option<Seq<char>>, Option<i64>, Option<i64>);

impl View for CycleTimeFilter {
    type V = FilterView;

    open spec fn view(&self) -> FilterView {
        (opt_str(self.sprint), self.since, self.until)
    }
}

/// The item is completed and the filter selects it.
pub open spec fn selected(it: BacklogItem, f: FilterView) -> bool {
    &&& it.done_at is Some
    &&& (f.0 matches Some(s) ==> opt_str(it.sprint) == Some(s))
    &&& (f.1 matches Some(t) ==> it.done_at.unwrap() >= t)
    &&& (f.2 matches Some(t) ==> it.done_at.unwrap() <= t)
}

/// Lead times of the selected items, in item order.
pub open spec fn lead_times(items: Seq<BacklogItem>, f: FilterView) -> Seq<int>
    decreases items.len(),
{
    if items.len() == 0 {
        seq![]
    } else {
        let it = items.last();
        let rest = lead_times(items.drop_last(), f);
        if selected(it, f) {
            rest.push(it.done_at.unwrap() - it.created)
        } else {
            rest
        }
    }
}

/// Cycle times of the selected items that have a start time, in item order.
pub open spec fn cycle_times(items: Seq<BacklogItem>, f: FilterView) -> Seq<int>
    decreases items.len(),
{
    if items.len() == 0 {
        seq![]
    } else {
        let it = items.last();
        let rest = cycle_times(items.drop_last(), f);
        if selected(it, f) && it.start_at is Some {
            rest.push(it.done_at.unwrap() - it.start_at.unwrap())
        } else {
            rest
        }
    }
}

/// IDs of the selected items without a start time, in item order.
pub open spec fn unstarted(items: Seq<BacklogItem>, f: FilterView) -> Seq<IdView>
    decreases items.len(),
{
    if items.len() == 0 {
        seq![]
    } else {
        let it = items.last();
        let rest = unstarted(items.drop_last(), f);
        if selected(it, f) && it.start_at is None {
            rest.push(it.id@)
        } else {
            rest
        }
    }
}

/// `a / b` truncated toward zero, for a positive `b`.
pub open spec fn trunc_div(a: int, b: int) -> int {
    if a >= 0 {
        a / b
    } else {
        -((-a) / b)
    }
}

/// The sum of a list of durations.
pub open spec fn total(s: Seq<int>) -> int
    decreases s.len(),
{
    if s.len() == 0 {
        0
    } else {
        total(s.drop_last()) + s.last()
    }
}

/// The list is in non-decreasing order.
pub open spec fn ascending(s: Seq<int>) -> bool {
    forall|i: int, j: int| 0 <= i <= j < s.len() ==> s[i] <= s[j]
}

/// The whole seconds of a duration in nanoseconds, truncated toward zero.
pub open spec fn whole_secs(x: int) -> int {
    trunc_div(x, 1_000_000_000)
}

/// The whole seconds of each duration.
pub open spec fn secs_of(s: Seq<int>) -> Seq<int> {
    s.map_values(|x: int| whole_secs(x))
}

/// The summary holds the statistics of the sorted list `s`: the mean and the median of the
/// durations' whole seconds, as whole seconds, and the exact minimum and maximum.
pub open spec fn summary_of(s: Seq<int>, sm: DurationSummary) -> bool {
    let n = s.len() as int;
    let mid = n / 2;
    let w = secs_of(s);
    &&& sm.count == n
    &&& sm.min == s[0]
    &&& sm.max == s[n - 1]
    &&& sm.mean == trunc_div(total(w), n) * 1_000_000_000
    &&& sm.median == 1_000_000_000 * if n % 2 == 1 {
        w[mid]
    } else {
        trunc_div(w[mid - 1] + w[mid], 2)
    }
}

/// A difference of two timestamps.
pub open spec fn in_span(x: int) -> bool {
    i64::MIN - i64::MAX <= x <= i64::MAX - i64::MIN
}

/// The summary describes the durations `d`: none when there are none, otherwise the statistics of
/// `d` in ascending order.
pub open spec fn summarizes(d: Seq<int>, r: Option<DurationSummary>) -> bool {
    if d.len() == 0 {
        r is None
    } else {
        r is Some && exists|s: Seq<int>|
            ascending(s) && s.to_multiset() == d.to_multiset() && #[trigger] summary_of(s, r.unwrap())
    }
}

/// The IDs in ascending ID order.
pub open spec fn ids_ascending(s: Seq<IdView>) -> bool {
    forall|i: int, j: int| 0 <= i < j < s.len() ==> !id_lt(#[trigger] s[j], #[trigger] s[i])
}

/// The durations as integers.
pub open spec fn ints(v: Seq<i128>) -> Seq<int> {
    v.map_values(|x: i128| x as int)
}

/// Insert `x` into an ascending list.
fn insert_ascending(v: &mut Vec<i128>, x: i128)
    requires
        ascending(ints(old(v)@)),
    ensures
        ascending(ints(final(v)@)),
        ints(final(v)@).to_multiset() == ints(old(v)@).to_multiset().insert(x as int),
        final(v)@.len() == old(v)@.len() + 1,
{
    let ghost before = v@;
    let ghost b = ints(before);
    let m = v.len();
    let mut p: usize = 0;
    while p < m && v[p] <= x
        invariant
            m == v@.len(),
            v@ == before,
            b == ints(before),
            p <= m,
            forall|k: int| 0 <= k < p ==> b[k] <= x,
        decreases m - p,
    {
        assert(b[p as int] == v@[p as int] as int);
        p = p + 1;
    }
    proof {
        if p < m {
            assert(b[p as int] == v@[p as int] as int);
        }
    }
    v.insert(p, x);
    proof {
        let o = ints(v@);
        assert(o =~= b.insert(p as int, x as int));
        assert forall|i: int, j: int| 0 <= i <= j < o.len() implies o[i] <= o[j] by {
            if j < p {
                assert(o[i] == b[i] && o[j] == b[j]);
            } else if j == p {
                if i < p {
                    assert(o[i] == b[i]);
                }
            } else if i < p {
                assert(o[i] == b[i] && o[j] == b[j - 1]);
            } else if i == p {
                assert(o[j] == b[j - 1]);
            } else {
                assert(o[i] == b[i - 1] && o[j] == b[j - 1]);
            }
        }
        vstd::seq_lib::to_multiset_insert(b, p as int, x as int);
    }
}

/// The durations in ascending order.
fn sort_durations(d: &Vec<i128>) -> (s: Vec<i128>)
    ensures
        ascending(ints(s@)),
        ints(s@).to_multiset() == ints(d@).to_multiset(),
        s@.len() == d@.len(),
{
    let mut s: Vec<i128> = Vec::new();
    let n = d.len();
    let mut i: usize = 0;
    assert(ints(s@) =~= ints(d@.take(0)));
    while i < n
        invariant
            n == d@.len(),
            i <= n,
            ascending(ints(s@)),
            ints(s@).to_multiset() == ints(d@.take(i as int)).to_multiset(),
            s@.len() == i,
        decreases n - i,
    {
        insert_ascending(&mut s, d[i]);
        proof {
            assert(ints(d@.take(i + 1)) =~= ints(d@.take(i as int)).push(d@[i as int] as int));
            vstd::seq_lib::to_multiset_insert(ints(d@.take(i as int)), i as int, d@[i as int] as int);
            assert(ints(d@.take(i as int)).insert(i as int, d@[i as int] as int) =~= ints(d@.take(i + 1)));
        }
        i = i + 1;
    }
    assert(d@.take(n as int) =~= d@);
    s
}

proof fn lemma_quotient_bounds(a: int, n: int, b: int)
    requires
        n > 0,
        b >= 0,
        -(n * b) <= a <= n * b,
    ensures
        -b <= trunc_div(a, n) <= b,
{
    if a >= 0 {
        assert(a / n <= b) by (nonlinear_arith)
            requires
                n > 0,
                0 <= a <= n * b,
        ;
        assert(a / n >= 0) by (nonlinear_arith)
            requires
                n > 0,
                a >= 0,
        ;
    } else {
        assert((-a) / n <= b) by (nonlinear_arith)
            requires
                n > 0,
                0 < -a <= n * b,
        ;
        assert((-a) / n >= 0) by (nonlinear_arith)
            requires
                n > 0,
                -a > 0,
        ;
    }
}

/// `a / n` truncated toward zero.
fn div_toward_zero(a: i128, n: i128) -> (r: i128)
    requires
        n > 0,
        a > i128::MIN,
    ensures
        r == trunc_div(a as int, n as int),
{
    if a >= 0 {
        a / n
    } else {
        -((-a) / n)
    }
}

/// The whole seconds of a duration, within the bound its span gives.
fn secs_part(x: i128) -> (r: i128)
    requires
        in_span(x as int),
    ensures
        r == whole_secs(x as int),
        -20_000_000_000 <= r <= 20_000_000_000,
{
    proof {
        lemma_quotient_bounds(x as int, 1_000_000_000, 20_000_000_000);
    }
    div_toward_zero(x, 1_000_000_000)
}

/// The summary statistics of the durations, none when there are none.
pub fn summarize(d: &Vec<i128>) -> (r: Option<DurationSummary>)
    requires
        forall|k: int| 0 <= k < d@.len() ==> in_span(#[trigger] d@[k] as int),
    ensures
        summarizes(ints(d@), r),
{
    let n = d.len();
    if n == 0 {
        return None;
    }
    let s = sort_durations(d);
    let ghost si = ints(s@);
    let ghost w = secs_of(si);
    proof {
        assert forall|k: int| 0 <= k < s@.len() implies in_span(#[trigger] s@[k] as int) by {
            assert(si.contains(si[k]));
            vstd::seq_lib::to_multiset_contains(si, si[k]);
            vstd::seq_lib::to_multiset_contains(ints(d@), si[k]);
            assert(ints(d@).contains(si[k]));
            let j = choose|j: int| 0 <= j < ints(d@).len() && ints(d@)[j] == si[k];
            assert(in_span(d@[j] as int));
        }
    }
    let mut sum: i128 = 0;
    let mut i: usize = 0;
    while i < n
        invariant
            n == s@.len(),
            i <= n,
            si == ints(s@),
            w == secs_of(si),
            forall|k: int| 0 <= k < s@.len() ==> in_span(#[trigger] s@[k] as int),
            sum == total(w.take(i as int)),
            -(i * 20_000_000_000) <= sum <= i * 20_000_000_000,
        decreases n - i,
    {
        let x = secs_part(s[i]);
        proof {
            assert(w.take(i + 1).drop_last() =~= w.take(i as int));
            assert(w[i as int] == whole_secs(s@[i as int] as int));
            assert((i + 1) * 20_000_000_000 == i * 20_000_000_000 + 20_000_000_000) by (nonlinear_arith);
            assert(i * 20_000_000_000 <= 20_000_000_000 * 18_446_744_073_709_551_615) by (nonlinear_arith)
                requires
                    i < n,
                    n <= usize::MAX,
                    usize::MAX <= 18_446_744_073_709_551_615,
            ;
        }
        sum = sum + x;
        i = i + 1;
    }
    assert(w.take(n as int) =~= w);
    proof {
        lemma_quotient_bounds(sum as int, n as int, 20_000_000_000);
    }
    let mean = div_toward_zero(sum, n as i128) * 1_000_000_000;
    let mid = n / 2;
    let median_secs: i128 = if n % 2 == 1 {
        secs_part(s[mid])
    } else {
        let pair = secs_part(s[mid - 1]) + secs_part(s[mid]);
        proof {
            lemma_quotient_bounds(pair as int, 2, 20_000_000_000);
        }
        div_toward_zero(pair, 2)
    };
    let median = 1_000_000_000 * median_secs;
    let sm = DurationSummary { count: n, mean, median, min: s[0], max: s[n - 1] };
    proof {
        assert(si[0] == s@[0] as int);
        assert(si[n - 1] == s@[n - 1] as int);
        assert(w[mid as int] == whole_secs(s@[mid as int] as int));
        if mid > 0 {
            assert(w[mid - 1] == whole_secs(s@[mid - 1] as int));
        }
        assert(summary_of(si, sm));
        assert(ascending(si));
        assert(si.to_multiset() == ints(d@).to_multiset());
        assert(ints(d@).len() > 0);
        assert(Some(sm).unwrap() == sm);
        assert(summarizes(ints(d@), Some(sm)));
    }
    Some(sm)
}

/// Whether the filter selects the item.
fn selects(it: &BacklogItem, f: &CycleTimeFilter) -> (r: bool)
    ensures
        r == selected(*it, f@),
{
    let done = match it.done_at {
        Some(t) => t,
        None => {
            return false;
        },
    };
    let in_sprint = match &f.sprint {
        Some(s) => match &it.sprint {
            Some(t) => text_eq(t.as_str(), s.as_str()),
            None => false,
        },
        None => true,
    };
    let after = match f.since {
        Some(t) => done >= t,
        None => true,
    };
    let before = match f.until {
        Some(t) => done <= t,
        None => true,
    };
    in_sprint && after && before
}

/// Insert `v` into a list of IDs in ascending ID order, after the IDs equal to it.
fn insert_id_ascending(ids: &mut Vec<ItemId>, v: ItemId)
    requires
        ids_ascending(ids_view(old(ids)@)),
    ensures
        ids_ascending(ids_view(final(ids)@)),
        ids_view(final(ids)@).to_multiset() == ids_view(old(ids)@).to_multiset().insert(v@),
{
    let ghost before = ids_view(ids@);
    let ghost x = v@;
    let m = ids.len();
    let mut p: usize = 0;
    while p < m && !id_before(&v, &ids[p])
        invariant
            m == ids@.len(),
            ids_view(ids@) == before,
            p <= m,
            x == v@,
            forall|k: int| 0 <= k < p ==> !id_lt(x, #[trigger] before[k]),
        decreases m - p,
    {
        assert(before[p as int] == ids@[p as int]@);
        p = p + 1;
    }
    proof {
        if p < m {
            assert(before[p as int] == ids@[p as int]@);
        }
    }
    ids.insert(p, v);
    proof {
        let o = ids_view(ids@);
        assert(o =~= before.insert(p as int, x));
        assert forall|a: int, b: int| 0 <= a < b < o.len() implies !id_lt(#[trigger] o[b], #[trigger] o[a]) by {
            if b < p {
                assert(o[a] == before[a] && o[b] == before[b]);
            } else if b == p {
                assert(o[a] == before[a]);
            } else if a < p {
                assert(o[a] == before[a] && o[b] == before[b - 1]);
            } else if a == p {
                assert(o[b] == before[b - 1]);
                crate::repair::lemma_id_order(before[b - 1], x, before[p as int]);
            } else {
                assert(o[a] == before[a - 1] && o[b] == before[b - 1]);
            }
        }
        vstd::seq_lib::to_multiset_insert(before, p as int, x);
    }
}

/// Whether `a` comes before `b` in ID order.
fn id_before(a: &ItemId, b: &ItemId) -> (r: bool)
    ensures
        r == id_lt(a@, b@),
{
    if text_eq(a.prefix.as_str(), b.prefix.as_str()) {
        a.number < b.number
    } else {
        crate::sorted::string_le(&a.prefix, &b.prefix)
    }
}

/// `r` reports the cycle and lead times of the items the filter `f` selects.
pub open spec fn report_of(r: CycleTimeReport, items: Seq<BacklogItem>, f: FilterView) -> bool {
    &&& summarizes(cycle_times(items, f), r.cycle)
    &&& summarizes(lead_times(items, f), r.lead)
    &&& ids_ascending(ids_view(r.missing_start@))
    &&& ids_view(r.missing_start@).to_multiset() == unstarted(items, f).to_multiset()
    &&& r.completed == lead_times(items, f).len()
}

/// Whether an item is assigned to the sprint `s`.
pub open spec fn assigned_to(s: Seq<char>) -> spec_fn(BacklogItem) -> bool {
    |it: BacklogItem| opt_str(it.sprint) == Some(s)
}

/// The items a report counts: completed, in the filter's sprint when it names one, and completed
/// within its window.
pub open spec fn counted(f: FilterView) -> spec_fn(BacklogItem) -> bool {
    |it: BacklogItem|
        it.done_at is Some && (f.0 is Some ==> opt_str(it.sprint) == f.0) && (f.1 is Some ==> f.1.unwrap()
            <= it.done_at.unwrap()) && (f.2 is Some ==> it.done_at.unwrap() <= f.2.unwrap())
}

/// There is one lead time per counted item.
proof fn lemma_lead_count(items: Seq<BacklogItem>, f: FilterView)
    ensures
        lead_times(items, f).len() == items.filter(counted(f)).len(),
    decreases items.len(),
{
    if items.len() > 0 {
        lemma_lead_count(items.drop_last(), f);
        assert(items == items.drop_last().push(items.last()));
        items.drop_last().lemma_filter_push(items.last(), counted(f));
    }
}

/// With a sprint filter, the items outside the sprint give no time and no missing start.
proof fn lemma_times_of_sprint(items: Seq<BacklogItem>, f: FilterView)
    requires
        f.0 is Some,
    ensures
        lead_times(items, f) == lead_times(items.filter(assigned_to(f.0.unwrap())), f),
        cycle_times(items, f) == cycle_times(items.filter(assigned_to(f.0.unwrap())), f),
        unstarted(items, f) == unstarted(items.filter(assigned_to(f.0.unwrap())), f),
    decreases items.len(),
{
    if items.len() > 0 {
        let p = assigned_to(f.0.unwrap());
        let rest = items.drop_last();
        let it = items.last();
        lemma_times_of_sprint(rest, f);
        assert(items == rest.push(it));
        rest.lemma_filter_push(it, p);
        let kept = rest.filter(p);
        if p(it) {
            assert(items.filter(p) == kept.push(it));
            assert(kept.push(it).drop_last() == kept);
            assert(kept.push(it).last() == it);
        } else {
            assert(items.filter(p) == kept);
            assert(!selected(it, f));
        }
    }
}

/// With a sprint filter `s`, the report on the board's items is the report on the items of
/// sprint `s` alone: items of other sprints and unassigned items are never counted.
pub proof fn lemma_report_sees_only_the_sprint(items: Seq<BacklogItem>, f: FilterView, r: CycleTimeReport)
    requires
        f.0 is Some,
        report_of(r, items, f),
    ensures
        report_of(r, items.filter(assigned_to(f.0.unwrap())), f),
{
    lemma_times_of_sprint(items, f);
}

/// Cycle and lead times of the completed items the filter selects: a summary of each, the
/// selected items without a start time in ID order, and how many items were selected.
pub fn compute_report(items: &Vec<BacklogItem>, filter: &CycleTimeFilter) -> (r: CycleTimeReport)
    ensures
        report_of(r, items@, filter@),
        filter.sprint matches Some(s) ==> report_of(r, items@.filter(assigned_to(s@)), filter@),
        r.completed == items@.filter(counted(filter@)).len(),
{
    let mut cycle: Vec<i128> = Vec::new();
    let mut lead: Vec<i128> = Vec::new();
    let mut missing: Vec<ItemId> = Vec::new();
    let n = items.len();
    let mut i: usize = 0;
    assert(items@.take(0) =~= Seq::<BacklogItem>::empty());
    assert(ids_view(missing@) =~= Seq::<IdView>::empty());
    assert(ints(cycle@) =~= Seq::<int>::empty());
    assert(ints(lead@) =~= Seq::<int>::empty());
    while i < n
        invariant
            n == items@.len(),
            i <= n,
            forall|k: int| 0 <= k < cycle@.len() ==> in_span(#[trigger] cycle@[k] as int),
            forall|k: int| 0 <= k < lead@.len() ==> in_span(#[trigger] lead@[k] as int),
            ints(cycle@) == cycle_times(items@.take(i as int), filter@),
            ints(lead@) == lead_times(items@.take(i as int), filter@),
            ids_ascending(ids_view(missing@)),
            ids_view(missing@).to_multiset() == unstarted(items@.take(i as int), filter@).to_multiset(),
            lead@.len() <= i,
        decreases n - i,
    {
        let ghost t = items@.take(i + 1);
        proof {
            assert(t.drop_last() =~= items@.take(i as int));
            assert(t.last() == items@[i as int]);
        }
        let it = &items[i];
        if selects(it, filter) {
            let done = it.done_at.unwrap();
            let ghost l0 = lead@;
            lead.push((done as i128) - (it.created as i128));
            assert(ints(lead@) =~= ints(l0).push(done - it.created));
            match it.start_at {
                Some(start) => {
                    let ghost c0 = cycle@;
                    cycle.push((done as i128) - (start as i128));
                    assert(ints(cycle@) =~= ints(c0).push(done - start));
                },
                None => {
                    let ghost u = unstarted(items@.take(i as int), filter@);
                    insert_id_ascending(&mut missing, it.id.copy());
                    proof {
                        assert(unstarted(t, filter@) == u.push(it.id@));
                        assert(u.push(it.id@).to_multiset() =~= u.to_multiset().insert(it.id@)) by {
                            vstd::seq_lib::to_multiset_insert(u, u.len() as int, it.id@);
                            assert(u.insert(u.len() as int, it.id@) =~= u.push(it.id@));
                        }
                    }
                },
            }
        }
        i = i + 1;
    }
    assert(items@.take(n as int) =~= items@);
    let completed = lead.len();
    let r = CycleTimeReport { cycle: summarize(&cycle), lead: summarize(&lead), missing_start: missing, completed };
    proof {
        if filter.sprint is Some {
            lemma_report_sees_only_the_sprint(items@, filter@, r);
        }
        lemma_lead_count(items@, filter@);
    }
    r
}

} // verus!
