//! Mechanical repairs of a scanned board: file names that do not follow their ID, IDs missing
//! from the history of issued IDs, and item IDs that several records share.
//!
//! When several item records share one ID, the copy in the most authoritative place keeps it and
//! every other copy gets the next free number of the same prefix. Each plan is computed from a
//! scan alone, so that applying it is a mechanical rewrite of the listed records.
use crate::backlog::{id_of_text, id_text, ids_view, opt_id, BacklogItem, IdView, ItemId};
use crate::doctor::{RawField, RawItemRecord, RecordArea};
use crate::error::Error;
use crate::inspect::{issued_set, record_valid_id};
use crate::order::{indices_where, lemma_indices_where};
use crate::sorted::{lemma_str_lt_total, lemma_str_lt_trans, str_leq, str_lt, string_le};
use crate::text::text_eq;
use vstd::prelude::*;

verus! {

// ---------------------------------------------------------------------------------------------
// Which numbers are taken
// ---------------------------------------------------------------------------------------------

/// The ID a file name `PREFIX-NUMBER.md` names, if it names one.
pub open spec fn stem_id(f: Seq<char>) -> Option<IdView> {
    if f.len() >= 3 && f[f.len() - 3] == '.' && f[f.len() - 2] == 'm' && f[f.len() - 1] == 'd' {
        id_of_text(f.subrange(0, f.len() - 3))
    } else {
        None
    }
}

/// The ID a record's file name names, if it names one.
pub open spec fn filename_id(r: RawItemRecord) -> Option<IdView> {
    match r.filename {
        Some(f) => stem_id(f@),
        None => None,
    }
}

/// An optional ID as a list of zero or one IDs.
pub open spec fn opt_list(o: Option<IdView>) -> Seq<IdView> {
    match o {
        Some(v) => seq![v],
        None => seq![],
    }
}

/// Every ID the records use, in their frontmatter or in their file names.
pub open spec fn record_numbers(rs: Seq<RawItemRecord>) -> Seq<IdView>
    decreases rs.len(),
{
    if rs.len() == 0 {
        seq![]
    } else {
        record_numbers(rs.drop_last()) + opt_list(record_valid_id(rs.last())) + opt_list(
            filename_id(rs.last()),
        )
    }
}

/// Every ID that is taken: those the records use and those the history has issued.
pub open spec fn taken_ids(rs: Seq<RawItemRecord>, issued: Seq<ItemId>) -> Seq<IdView> {
    record_numbers(rs) + ids_view(issued)
}

/// The highest number any of `ids` has under `prefix`, or 0.
pub open spec fn highest(ids: Seq<IdView>, prefix: Seq<char>) -> int
    decreases ids.len(),
{
    if ids.len() == 0 {
        0
    } else {
        let m = highest(ids.drop_last(), prefix);
        if ids.last().0 == prefix && ids.last().1 > m {
            ids.last().1 as int
        } else {
            m
        }
    }
}

proof fn lemma_highest_push(ids: Seq<IdView>, v: IdView, prefix: Seq<char>)
    ensures
        highest(ids.push(v), prefix) == if v.0 == prefix && v.1 > highest(ids, prefix) {
            v.1 as int
        } else {
            highest(ids, prefix)
        },
        0 <= highest(ids, prefix) <= u32::MAX,
    decreases ids.len(),
{
    assert(ids.push(v).drop_last() =~= ids);
    if ids.len() > 0 {
        lemma_highest_push(ids.drop_last(), ids.last(), prefix);
        assert(ids.drop_last().push(ids.last()) =~= ids);
    }
}

/// The ID a record's file name names, if it names one.
fn file_stem_id(r: &RawItemRecord) -> (v: Option<ItemId>)
    ensures
        opt_id(v) == filename_id(*r),
{
    match &r.filename {
        Some(f) => {
            let s = f.as_str();
            let n = s.unicode_len();
            if n >= 3 && s.get_char(n - 3) == '.' && s.get_char(n - 2) == 'm' && s.get_char(n - 1) == 'd' {
                ItemId::parse(s.substring_char(0, n - 3))
            } else {
                None
            }
        },
        None => None,
    }
}

/// The ID a record's frontmatter names, if it names a valid one.
pub fn record_id(r: &RawItemRecord) -> (v: Option<ItemId>)
    ensures
        opt_id(v) == record_valid_id(*r),
{
    match &r.id {
        RawField::Present(raw) => ItemId::parse(raw.as_str()),
        _ => None,
    }
}

/// Fold one optional ID into a running highest number under `prefix`.
fn raise(m: u32, v: Option<ItemId>, prefix: &String, Ghost(ids): Ghost<Seq<IdView>>) -> (r: u32)
    requires
        m == highest(ids, prefix@),
    ensures
        r == highest(ids + opt_list(opt_id(v)), prefix@),
{
    proof {
        lemma_highest_push(ids, (Seq::<char>::empty(), 0u32), prefix@);
    }
    match v {
        Some(id) => {
            proof {
                lemma_highest_push(ids, id@, prefix@);
                assert(ids + opt_list(opt_id(Some(id))) =~= ids.push(id@));
            }
            if text_eq(id.prefix.as_str(), prefix.as_str()) && id.number > m {
                id.number
            } else {
                m
            }
        },
        None => {
            assert(ids + opt_list(opt_id(v)) =~= ids);
            m
        },
    }
}

/// The highest number taken under `prefix`, by the records or by the history.
fn highest_taken(records: &Vec<RawItemRecord>, issued: &Vec<ItemId>, prefix: &String) -> (r: u32)
    ensures
        r == highest(taken_ids(records@, issued@), prefix@),
{
    let n = records.len();
    let mut m: u32 = 0;
    let mut i: usize = 0;
    while i < n
        invariant
            n == records@.len(),
            i <= n,
            m == highest(record_numbers(records@.take(i as int)), prefix@),
        decreases n - i,
    {
        let ghost before = record_numbers(records@.take(i as int));
        proof {
            let t = records@.take(i + 1);
            assert(t.drop_last() =~= records@.take(i as int));
            assert(t.last() == records@[i as int]);
        }
        let a = record_id(&records[i]);
        let m1 = raise(m, a, prefix, Ghost(before));
        let b = file_stem_id(&records[i]);
        m = raise(m1, b, prefix, Ghost(before + opt_list(opt_id(a))));
        i = i + 1;
    }
    assert(records@.take(n as int) =~= records@);
    let ghost rn = record_numbers(records@);
    let k = issued.len();
    let mut j: usize = 0;
    while j < k
        invariant
            k == issued@.len(),
            j <= k,
            m == highest(rn + ids_view(issued@.take(j as int)), prefix@),
        decreases k - j,
    {
        let ghost before = rn + ids_view(issued@.take(j as int));
        proof {
            assert(rn + ids_view(issued@.take(j + 1)) =~= before + opt_list(opt_id(Some(issued@[j as int]))));
        }
        let id = issued[j].copy();
        m = raise(m, Some(id), prefix, Ghost(before));
        j = j + 1;
    }
    assert(issued@.take(k as int) =~= issued@);
    m
}

// ---------------------------------------------------------------------------------------------
// Which records share an ID, and in what order they are renumbered
// ---------------------------------------------------------------------------------------------

/// IDs in ID order: by prefix in string order, then by number.
pub open spec fn id_lt(a: IdView, b: IdView) -> bool {
    str_lt(a.0, b.0) || (a.0 == b.0 && a.1 < b.1)
}

/// ID order is a strict total order.
pub proof fn lemma_id_order(a: IdView, b: IdView, c: IdView)
    ensures
        !id_lt(a, a),
        id_lt(a, b) && id_lt(b, c) ==> id_lt(a, c),
        a != b ==> id_lt(a, b) || id_lt(b, a),
        id_lt(a, b) ==> !id_lt(b, a),
{
    if id_lt(a, b) && id_lt(b, c) {
        if str_lt(a.0, b.0) && str_lt(b.0, c.0) {
            lemma_str_lt_trans(a.0, b.0, c.0);
        }
    }
    if a != b && a.0 != b.0 {
        lemma_str_lt_total(a.0, b.0);
    }
    if id_lt(a, b) && id_lt(b, a) {
        if str_lt(a.0, b.0) && str_lt(b.0, a.0) {
            lemma_str_lt_trans(a.0, b.0, a.0);
        }
    }
}

/// Whether `a` comes before `b` in ID order.
fn id_before(a: &ItemId, b: &ItemId) -> (r: bool)
    ensures
        r == id_lt(a@, b@),
{
    if text_eq(a.prefix.as_str(), b.prefix.as_str()) {
        a.number < b.number
    } else {
        string_le(&a.prefix, &b.prefix)
    }
}

/// The records whose frontmatter names the ID `v`, in record order.
pub open spec fn holders(rs: Seq<RawItemRecord>, v: IdView) -> Seq<usize> {
    indices_where(rs.len() as int, |i: int| record_valid_id(rs[i]) == Some(v))
}

/// `order` lists, in strictly increasing ID order, exactly the IDs that two or more records name.
pub open spec fn duplicate_order(rs: Seq<RawItemRecord>, order: Seq<IdView>) -> bool {
    &&& forall|i: int, j: int| 0 <= i < j < order.len() ==> id_lt(#[trigger] order[i], #[trigger] order[j])
    &&& forall|k: int| 0 <= k < order.len() ==> (#[trigger] holders(rs, order[k])).len() >= 2
    &&& forall|v: IdView| #[trigger] holders(rs, v).len() >= 2 ==> order.contains(v)
}

/// Record `i` keeps a shared ID before record `j`: task files before archived files before
/// database rows, then by location in string order, then in scan order.
pub open spec fn record_before(rs: Seq<RawItemRecord>, i: usize, j: usize) -> bool {
    let a = rs[i as int];
    let b = rs[j as int];
    if a.area.priority() != b.area.priority() {
        a.area.priority() < b.area.priority()
    } else if a.location@ != b.location@ {
        str_lt(a.location@, b.location@)
    } else {
        i < j
    }
}

/// The record order is a strict total order.
pub proof fn lemma_record_order(rs: Seq<RawItemRecord>, a: usize, b: usize, c: usize)
    ensures
        !record_before(rs, a, a),
        record_before(rs, a, b) && record_before(rs, b, c) ==> record_before(rs, a, c),
        a != b ==> record_before(rs, a, b) || record_before(rs, b, a),
        record_before(rs, a, b) ==> !record_before(rs, b, a),
{
    let (x, y, z) = (rs[a as int].location@, rs[b as int].location@, rs[c as int].location@);
    if x != y {
        lemma_str_lt_total(x, y);
    }
    if str_lt(x, y) && str_lt(y, z) {
        lemma_str_lt_trans(x, y, z);
    }
    if str_lt(x, y) && str_lt(y, x) {
        lemma_str_lt_trans(x, y, x);
    }
}

/// `s` holds the records of `m` in the order in which they keep a shared ID.
pub open spec fn arranged(rs: Seq<RawItemRecord>, m: Seq<usize>, s: Seq<usize>) -> bool {
    &&& s.len() == m.len()
    &&& forall|x: usize| s.contains(x) <==> m.contains(x)
    &&& forall|i: int, j: int| 0 <= i < j < s.len() ==> record_before(rs, #[trigger] s[i], #[trigger] s[j])
}

/// Whether record `i` keeps a shared ID before record `j`.
fn keeps_before(records: &Vec<RawItemRecord>, i: usize, j: usize) -> (r: bool)
    requires
        i < records@.len(),
        j < records@.len(),
    ensures
        r == record_before(records@, i, j),
{
    let pa = records[i].area.record_area_priority();
    let pb = records[j].area.record_area_priority();
    if pa != pb {
        pa < pb
    } else if !text_eq(records[i].location.as_str(), records[j].location.as_str()) {
        string_le(&records[i].location, &records[j].location)
    } else {
        i < j
    }
}

/// Insert record `x` into a list sorted in keeping order.
fn insert_record(out: &mut Vec<usize>, records: &Vec<RawItemRecord>, x: usize)
    requires
        x < records@.len(),
        forall|k: int| 0 <= k < old(out)@.len() ==> #[trigger] old(out)@[k] < records@.len() && old(out)@[k] != x,
        forall|i: int, j: int|
            0 <= i < j < old(out)@.len() ==> record_before(records@, #[trigger] old(out)@[i], #[trigger] old(out)@[j]),
    ensures
        final(out)@.len() == old(out)@.len() + 1,
        forall|y: usize| final(out)@.contains(y) <==> old(out)@.contains(y) || y == x,
        forall|k: int| 0 <= k < final(out)@.len() ==> #[trigger] final(out)@[k] < records@.len(),
        forall|i: int, j: int|
            0 <= i < j < final(out)@.len() ==> record_before(records@, #[trigger] final(out)@[i], #[trigger] final(out)@[j]),
{
    let ghost before = out@;
    let m = out.len();
    let mut p: usize = 0;
    while p < m && keeps_before(records, out[p], x)
        invariant
            m == out@.len(),
            out@ == before,
            p <= m,
            x < records@.len(),
            forall|k: int| 0 <= k < before.len() ==> #[trigger] before[k] < records@.len() && before[k] != x,
            forall|k: int| 0 <= k < p ==> record_before(records@, #[trigger] before[k], x),
        decreases m - p,
    {
        p = p + 1;
    }
    proof {
        if p < m {
            lemma_record_order(records@, before[p as int], x, x);
        }
    }
    out.insert(p, x);
    proof {
        let o = out@;
        let rs = records@;
        assert(o == before.insert(p as int, x));
        assert forall|a: int, b: int| 0 <= a < b < o.len() implies record_before(rs, #[trigger] o[a], #[trigger] o[b]) by {
            if b < p {
                assert(o[a] == before[a] && o[b] == before[b]);
            } else if b == p {
                assert(o[a] == before[a]);
            } else if a < p {
                assert(o[a] == before[a] && o[b] == before[b - 1]);
                lemma_record_order(rs, before[a], x, before[b - 1]);
                if b - 1 > p {
                    lemma_record_order(rs, x, before[p as int], before[b - 1]);
                }
            } else if a == p {
                assert(o[b] == before[b - 1]);
                if b - 1 > p {
                    lemma_record_order(rs, x, before[p as int], before[b - 1]);
                }
            } else {
                assert(o[a] == before[a - 1] && o[b] == before[b - 1]);
            }
        }
        assert forall|y: usize| o.contains(y) <==> before.contains(y) || y == x by {
            if o.contains(y) {
                let k = choose|k: int| 0 <= k < o.len() && o[k] == y;
                if k < p {
                    assert(before[k] == y);
                } else if k > p {
                    assert(before[k - 1] == y);
                }
            }
            if before.contains(y) {
                let k = choose|k: int| 0 <= k < before.len() && before[k] == y;
                if k < p {
                    assert(o[k] == y);
                } else {
                    assert(o[k + 1] == y);
                }
            }
            if y == x {
                assert(o[p as int] == x);
            }
        }
    }
}

/// The records of `m` in keeping order.
fn arrange(records: &Vec<RawItemRecord>, m: &Vec<usize>) -> (s: Vec<usize>)
    requires
        forall|k: int| 0 <= k < m@.len() ==> #[trigger] m@[k] < records@.len(),
        forall|a: int, b: int| 0 <= a < b < m@.len() ==> m@[a] < m@[b],
    ensures
        arranged(records@, m@, s@),
        forall|k: int| 0 <= k < s@.len() ==> #[trigger] s@[k] < records@.len(),
{
    let mut out: Vec<usize> = Vec::new();
    let n = m.len();
    let mut i: usize = 0;
    while i < n
        invariant
            n == m@.len(),
            i <= n,
            forall|k: int| 0 <= k < m@.len() ==> #[trigger] m@[k] < records@.len(),
            forall|a: int, b: int| 0 <= a < b < m@.len() ==> m@[a] < m@[b],
            arranged(records@, m@.take(i as int), out@),
            forall|k: int| 0 <= k < out@.len() ==> #[trigger] out@[k] < records@.len(),
        decreases n - i,
    {
        let x = m[i];
        proof {
            assert forall|k: int| 0 <= k < out@.len() implies out@[k] != x by {
                assert(out@.contains(out@[k]));
                assert(m@.take(i as int).contains(out@[k]));
                let j = choose|j: int| 0 <= j < i && m@.take(i as int)[j] == out@[k];
                assert(m@[j] < m@[i as int]);
            }
        }
        insert_record(&mut out, records, x);
        proof {
            let t = m@.take(i + 1);
            assert(t =~= m@.take(i as int).push(x));
            assert forall|y: usize| t.contains(y) <==> m@.take(i as int).contains(y) || y == x by {
                if t.contains(y) {
                    let k = choose|k: int| 0 <= k < t.len() && t[k] == y;
                    if k < i {
                        assert(m@.take(i as int)[k] == y);
                    }
                }
                if m@.take(i as int).contains(y) {
                    let k = choose|k: int| 0 <= k < i && m@.take(i as int)[k] == y;
                    assert(t[k] == y);
                }
                if y == x {
                    assert(t[i as int] == x);
                }
            }
        }
        i = i + 1;
    }
    assert(m@.take(n as int) =~= m@);
    out
}

/// The records whose frontmatter names `id`, in record order.
fn holders_of(records: &Vec<RawItemRecord>, id: &ItemId) -> (h: Vec<usize>)
    ensures
        h@ == holders(records@, id@),
        forall|k: int| 0 <= k < h@.len() ==> #[trigger] h@[k] < records@.len(),
        forall|a: int, b: int| 0 <= a < b < h@.len() ==> h@[a] < h@[b],
{
    let ghost pred = |i: int| record_valid_id(records@[i]) == Some(id@);
    let n = records.len();
    let mut h: Vec<usize> = Vec::new();
    let mut i: usize = 0;
    while i < n
        invariant
            n == records@.len(),
            i <= n,
            pred == (|i: int| record_valid_id(records@[i]) == Some(id@)),
            h@ == indices_where(i as int, pred),
        decreases n - i,
    {
        let v = record_id(&records[i]);
        let hit = match &v {
            Some(w) => w.same(id),
            None => false,
        };
        assert(hit == pred(i as int));
        if hit {
            h.push(i);
        }
        i = i + 1;
    }
    proof {
        lemma_indices_where(n as int, pred);
    }
    h
}

/// Whether `id` is in the list.
fn listed(ids: &Vec<ItemId>, id: &ItemId) -> (r: bool)
    ensures
        r == ids_view(ids@).contains(id@),
{
    let n = ids.len();
    let mut i: usize = 0;
    while i < n
        invariant
            n == ids@.len(),
            i <= n,
            forall|k: int| 0 <= k < i ==> ids@[k]@ != id@,
        decreases n - i,
    {
        if ids[i].same(id) {
            assert(ids_view(ids@)[i as int] == id@);
            return true;
        }
        i = i + 1;
    }
    proof {
        if ids_view(ids@).contains(id@) {
            let k = choose|k: int| 0 <= k < ids_view(ids@).len() && ids_view(ids@)[k] == id@;
            assert(ids@[k]@ == id@);
        }
    }
    false
}

/// Insert `v` into a list of IDs sorted in ID order.
fn insert_id(ids: &mut Vec<ItemId>, v: ItemId)
    requires
        !ids_view(old(ids)@).contains(v@),
        forall|i: int, j: int| 0 <= i < j < old(ids)@.len() ==> id_lt(#[trigger] old(ids)@[i]@, #[trigger] old(ids)@[j]@),
    ensures
        forall|w: IdView| ids_view(final(ids)@).contains(w) <==> ids_view(old(ids)@).contains(w) || w == v@,
        forall|i: int, j: int| 0 <= i < j < final(ids)@.len() ==> id_lt(#[trigger] final(ids)@[i]@, #[trigger] final(ids)@[j]@),
{
    let ghost before = ids_view(ids@);
    let ghost x = v@;
    let m = ids.len();
    let mut p: usize = 0;
    while p < m && id_before(&ids[p], &v)
        invariant
            m == ids@.len(),
            ids_view(ids@) == before,
            p <= m,
            x == v@,
            forall|k: int| 0 <= k < p ==> id_lt(#[trigger] before[k], x),
        decreases m - p,
    {
        assert(before[p as int] == ids@[p as int]@);
        p = p + 1;
    }
    proof {
        if p < m {
            assert(before[p as int] == ids@[p as int]@);
            assert(before[p as int] != x);
            lemma_id_order(before[p as int], x, x);
        }
        assert forall|i: int, j: int| 0 <= i < j < before.len() implies id_lt(#[trigger] before[i], #[trigger] before[j]) by {
            assert(before[i] == ids@[i]@ && before[j] == ids@[j]@);
        }
    }
    ids.insert(p, v);
    proof {
        let o = ids_view(ids@);
        assert(o =~= before.insert(p as int, x));
        assert forall|a: int, b: int| 0 <= a < b < o.len() implies id_lt(#[trigger] o[a], #[trigger] o[b]) by {
            if b < p {
                assert(o[a] == before[a] && o[b] == before[b]);
            } else if b == p {
                assert(o[a] == before[a]);
            } else if a < p {
                assert(o[a] == before[a] && o[b] == before[b - 1]);
                lemma_id_order(before[a], x, before[b - 1]);
                if b - 1 > p {
                    lemma_id_order(x, before[p as int], before[b - 1]);
                }
            } else if a == p {
                assert(o[b] == before[b - 1]);
                if b - 1 > p {
                    lemma_id_order(x, before[p as int], before[b - 1]);
                }
            } else {
                assert(o[a] == before[a - 1] && o[b] == before[b - 1]);
            }
        }
        assert forall|i: int, j: int| 0 <= i < j < ids@.len() implies id_lt(#[trigger] ids@[i]@, #[trigger] ids@[j]@) by {
            assert(o[i] == ids@[i]@ && o[j] == ids@[j]@);
        }
        assert forall|y: IdView| o.contains(y) <==> before.contains(y) || y == x by {
            if o.contains(y) {
                let k = choose|k: int| 0 <= k < o.len() && o[k] == y;
                if k < p {
                    assert(before[k] == y);
                } else if k > p {
                    assert(before[k - 1] == y);
                }
            }
            if before.contains(y) {
                let k = choose|k: int| 0 <= k < before.len() && before[k] == y;
                if k < p {
                    assert(o[k] == y);
                } else {
                    assert(o[k + 1] == y);
                }
            }
            if y == x {
                assert(o[p as int] == x);
            }
        }
    }
}

/// The IDs two or more records name, in ID order.
fn duplicate_ids(records: &Vec<RawItemRecord>) -> (ids: Vec<ItemId>)
    ensures
        duplicate_order(records@, ids_view(ids@)),
{
    let mut ids: Vec<ItemId> = Vec::new();
    let n = records.len();
    let mut i: usize = 0;
    while i < n
        invariant
            n == records@.len(),
            i <= n,
            forall|a: int, b: int| 0 <= a < b < ids@.len() ==> id_lt(#[trigger] ids@[a]@, #[trigger] ids@[b]@),
            forall|k: int| 0 <= k < ids@.len() ==> (#[trigger] holders(records@, ids@[k]@)).len() >= 2,
            forall|j: int|
                0 <= j < i && (#[trigger] record_valid_id(records@[j])) is Some && holders(
                    records@,
                    record_valid_id(records@[j]).unwrap(),
                ).len() >= 2 ==> ids_view(ids@).contains(record_valid_id(records@[j]).unwrap()),
        decreases n - i,
    {
        match record_id(&records[i]) {
            Some(v) => {
                if !listed(&ids, &v) {
                    let h = holders_of(records, &v);
                    if h.len() >= 2 {
                        let ghost before = ids_view(ids@);
                        let ghost prior = ids@;
                        let ghost w = v@;
                        insert_id(&mut ids, v);
                        proof {
                            assert forall|k: int| 0 <= k < ids@.len() implies (#[trigger] holders(records@, ids@[k]@)).len() >= 2 by {
                                assert(ids_view(ids@).contains(ids@[k]@)) by {
                                    assert(ids_view(ids@)[k] == ids@[k]@);
                                }
                                if ids@[k]@ != w {
                                    let q = choose|q: int| 0 <= q < before.len() && before[q] == ids@[k]@;
                                    assert(prior[q]@ == before[q]);
                                }
                            }
                        }
                    }
                }
            },
            None => {},
        }
        i = i + 1;
    }
    proof {
        let o = ids_view(ids@);
        assert forall|a: int, b: int| 0 <= a < b < o.len() implies id_lt(#[trigger] o[a], #[trigger] o[b]) by {
            assert(o[a] == ids@[a]@ && o[b] == ids@[b]@);
        }
        assert forall|k: int| 0 <= k < o.len() implies (#[trigger] holders(records@, o[k])).len() >= 2 by {
            assert(o[k] == ids@[k]@);
        }
        assert forall|v: IdView| #[trigger] holders(records@, v).len() >= 2 implies o.contains(v) by {
            let h = holders(records@, v);
            lemma_indices_where(n as int, |i: int| record_valid_id(records@[i]) == Some(v));
            let j = h[0] as int;
            assert(record_valid_id(records@[j]) == Some(v));
        }
    }
    ids
}

// ---------------------------------------------------------------------------------------------
// The plan
// ---------------------------------------------------------------------------------------------

/// One record to renumber.
#[derive(Debug)]
pub struct DuplicateRepair {
    /// Where the record was read from.
    pub location: String,
    /// The area it belongs to.
    pub area: RecordArea,
    /// The shared ID it holds now.
    pub old_id: ItemId,
    /// The ID it receives.
    pub new_id: ItemId,
    /// Its position among the copies of the shared ID (the copy that keeps the ID is 0).
    pub occurrence: usize,
    /// The item the record holds, as read.
    pub item: BacklogItem,
}

/// Every renumbering of one scan, and for each shared ID the IDs its copies end up with, in
/// keeping order (the first is the shared ID itself), so that references can follow the copy
/// they belonged to.
#[derive(Debug)]
pub struct DuplicateRepairPlan {
    pub repairs: Vec<DuplicateRepair>,
    pub lineages: Vec<(ItemId, Vec<ItemId>)>,
}

/// A renumbering as values: the record's position in the scan, which copy it is, its old ID and
/// its new ID.
pub type RepairView = (int, usize, IdView, IdView);

/// A lineage as values: the shared ID and the IDs of its copies in keeping order.
pub type LineageView = (IdView, Seq<IdView>);

/// The highest taken number per prefix, with `prefix` raised to `value`.
pub open spec fn bump(top: spec_fn(Seq<char>) -> int, prefix: Seq<char>, value: int) -> spec_fn(Seq<char>) -> int {
    |q: Seq<char>| if q == prefix { value } else { top(q) }
}

/// The highest taken number per prefix before any renumbering.
pub open spec fn initial_top(rs: Seq<RawItemRecord>, issued: Seq<ItemId>) -> spec_fn(Seq<char>) -> int {
    |q: Seq<char>| highest(taken_ids(rs, issued), q)
}

/// Every record of the group holds an item the strict reader could build; a group with a
/// malformed copy is left alone.
pub open spec fn group_ready(rs: Seq<RawItemRecord>, s: Seq<usize>) -> bool {
    forall|j: int| 0 <= j < s.len() ==> (#[trigger] rs[s[j] as int]).parsed is Some
}

/// The renumberings of one group: every copy after the first gets the next number after `base`.
pub open spec fn group_repairs(v: IdView, s: Seq<usize>, base: int) -> Seq<RepairView> {
    Seq::new((s.len() - 1) as nat, |k: int| (s[k + 1] as int, (k + 1) as usize, v, (v.0, (base + k + 1) as u32)))
}

/// The IDs the copies of a group end up with.
pub open spec fn group_lineage(v: IdView, n: nat, base: int) -> Seq<IdView> {
    Seq::new(n, |k: int| if k == 0 { v } else { (v.0, (base + k) as u32) })
}

/// The plan for the groups in order, given the highest taken number per prefix; or the shared ID
/// whose next numbers would pass the 32-bit range.
pub open spec fn plan_from(
    rs: Seq<RawItemRecord>,
    groups: Seq<(IdView, Seq<usize>)>,
    top: spec_fn(Seq<char>) -> int,
) -> Result<(Seq<RepairView>, Seq<LineageView>), IdView>
    decreases groups.len(),
{
    if groups.len() == 0 {
        Ok((seq![], seq![]))
    } else {
        let v = groups[0].0;
        let s = groups[0].1;
        if !group_ready(rs, s) {
            plan_from(rs, groups.drop_first(), top)
        } else {
            let base = top(v.0);
            let last = base + s.len() - 1;
            if last > u32::MAX {
                Err(v)
            } else {
                match plan_from(rs, groups.drop_first(), bump(top, v.0, last)) {
                    Ok((reps, lins)) => Ok(
                        (group_repairs(v, s, base) + reps, seq![(v, group_lineage(v, s.len(), base))] + lins),
                    ),
                    Err(e) => Err(e),
                }
            }
        }
    }
}

/// Every renumbering of a plan gets a number above the highest taken number of its prefix, and
/// no two get the same ID.
proof fn lemma_plan_fresh(rs: Seq<RawItemRecord>, gs: Seq<(IdView, Seq<usize>)>, top: spec_fn(Seq<char>) -> int)
    requires
        forall|k: int| 0 <= k < gs.len() ==> (#[trigger] gs[k]).1.len() >= 1,
        forall|p: Seq<char>| #[trigger] top(p) >= 0,
    ensures
        plan_from(rs, gs, top) is Ok ==> {
            let reps = plan_from(rs, gs, top)->Ok_0.0;
            &&& forall|k: int| 0 <= k < reps.len() ==> (#[trigger] reps[k]).3.1 > top(reps[k].3.0)
            &&& forall|j: int, k: int| 0 <= j < k < reps.len() ==> (#[trigger] reps[j]).3 != (#[trigger] reps[k]).3
        },
    decreases gs.len(),
{
    if gs.len() > 0 {
        let v = gs[0].0;
        let s = gs[0].1;
        assert forall|k: int| 0 <= k < gs.drop_first().len() implies (#[trigger] gs.drop_first()[k]).1.len() >= 1 by {
            assert(gs.drop_first()[k] == gs[k + 1]);
        }
        assert(s.len() >= 1) by {
            assert(gs[0].1.len() >= 1);
        }
        if !group_ready(rs, s) {
            lemma_plan_fresh(rs, gs.drop_first(), top);
        } else {
            let base = top(v.0);
            let last = base + s.len() - 1;
            if last <= u32::MAX {
                let top1 = bump(top, v.0, last);
                assert forall|p: Seq<char>| #[trigger] top1(p) >= 0 && top1(p) >= top(p) by {
                    assert(top(p) >= 0);
                }
                lemma_plan_fresh(rs, gs.drop_first(), top1);
                if plan_from(rs, gs, top) is Ok {
                    let rest = plan_from(rs, gs.drop_first(), top1)->Ok_0.0;
                    let gr = group_repairs(v, s, base);
                    let reps = plan_from(rs, gs, top)->Ok_0.0;
                    assert(reps == gr + rest);
                    assert forall|k: int| 0 <= k < reps.len() implies (#[trigger] reps[k]).3.1 > top(reps[k].3.0) by {
                        if k < gr.len() {
                            assert(reps[k] == gr[k]);
                        } else {
                            assert(reps[k] == rest[k - gr.len()]);
                            assert(top1(rest[k - gr.len()].3.0) >= top(rest[k - gr.len()].3.0));
                        }
                    }
                    assert forall|j: int, k: int| 0 <= j < k < reps.len() implies (#[trigger] reps[j]).3 != (#[trigger] reps[k]).3 by {
                        if k < gr.len() {
                            assert(reps[j] == gr[j] && reps[k] == gr[k]);
                        } else if j < gr.len() {
                            assert(reps[j] == gr[j]);
                            assert(reps[k] == rest[k - gr.len()]);
                            if rest[k - gr.len()].3.0 == v.0 {
                                assert(rest[k - gr.len()].3.1 > top1(v.0));
                            }
                        } else {
                            assert(reps[j] == rest[j - gr.len()] && reps[k] == rest[k - gr.len()]);
                        }
                    }
                }
            }
        }
    }
}

/// No taken ID of a prefix has a number above the highest.
proof fn lemma_highest_bounds(ids: Seq<IdView>, v: IdView)
    requires
        ids.contains(v),
    ensures
        v.1 <= highest(ids, v.0),
    decreases ids.len(),
{
    if ids.last() != v {
        assert(ids.drop_last().contains(v)) by {
            let k = choose|k: int| 0 <= k < ids.len() && ids[k] == v;
            assert(ids.drop_last()[k] == v);
        }
        lemma_highest_bounds(ids.drop_last(), v);
    }
}

/// Renumbering never hands out an ID that a record's frontmatter or file name uses or that the
/// history has issued, and never hands out one ID twice.
pub proof fn lemma_repairs_use_fresh_ids(
    rs: Seq<RawItemRecord>,
    issued: Seq<ItemId>,
    order: Seq<IdView>,
    arr: Seq<Seq<usize>>,
)
    requires
        duplicate_order(rs, order),
        grouped(rs, order, arr),
        plan_from(rs, zip_groups(order, arr), initial_top(rs, issued)) is Ok,
    ensures
        ({
            let reps = plan_from(rs, zip_groups(order, arr), initial_top(rs, issued))->Ok_0.0;
            &&& forall|k: int| 0 <= k < reps.len() ==> !taken_ids(rs, issued).contains(#[trigger] reps[k].3)
            &&& forall|j: int, k: int| 0 <= j < k < reps.len() ==> (#[trigger] reps[j]).3 != (#[trigger] reps[k]).3
        }),
{
    let top0 = initial_top(rs, issued);
    let gs = zip_groups(order, arr);
    assert forall|k: int| 0 <= k < gs.len() implies (#[trigger] gs[k]).1.len() >= 1 by {
        assert(arranged(rs, holders(rs, order[k]), arr[k]));
        assert(holders(rs, order[k]).len() >= 2);
    }
    assert forall|p: Seq<char>| #[trigger] top0(p) >= 0 by {
        lemma_highest_push(taken_ids(rs, issued), (p, 0u32), p);
    }
    lemma_plan_fresh(rs, gs, top0);
    let reps = plan_from(rs, zip_groups(order, arr), top0)->Ok_0.0;
    assert forall|k: int| 0 <= k < reps.len() implies !taken_ids(rs, issued).contains(#[trigger] reps[k].3) by {
        if taken_ids(rs, issued).contains(reps[k].3) {
            lemma_highest_bounds(taken_ids(rs, issued), reps[k].3);
        }
    }
}

/// The highest taken number per prefix once the first `k` groups are planned: each group whose
/// copies could all be read raises its prefix by the number of copies it renumbers.
pub open spec fn top_after(
    rs: Seq<RawItemRecord>,
    gs: Seq<(IdView, Seq<usize>)>,
    top: spec_fn(Seq<char>) -> int,
    k: int,
) -> spec_fn(Seq<char>) -> int
    decreases k,
{
    if k <= 0 {
        top
    } else {
        let t = top_after(rs, gs, top, k - 1);
        let g = gs[k - 1];
        if group_ready(rs, g.1) {
            bump(t, g.0.0, t(g.0.0) + g.1.len() - 1)
        } else {
            t
        }
    }
}

/// Planning the first group and then the first `k` of the rest leaves the same numbers as
/// planning the first `k + 1` groups.
proof fn lemma_top_after_shift(rs: Seq<RawItemRecord>, gs: Seq<(IdView, Seq<usize>)>, top: spec_fn(Seq<char>) -> int, k: int)
    requires
        0 <= k < gs.len(),
    ensures
        top_after(rs, gs, top, k + 1) == top_after(rs, gs.drop_first(), top_after(rs, gs, top, 1), k),
    decreases k,
{
    if k > 0 {
        lemma_top_after_shift(rs, gs, top, k - 1);
        assert(gs.drop_first()[k - 1] == gs[k]);
    }
}

/// The shared ID `v` is that of a group whose copies could all be read.
pub open spec fn of_ready_group(rs: Seq<RawItemRecord>, gs: Seq<(IdView, Seq<usize>)>, v: IdView) -> bool {
    exists|j: int| 0 <= j < gs.len() && (#[trigger] gs[j]).0 == v && group_ready(rs, gs[j].1)
}

/// The group `k` holds the shared ID `v`, could be read, and its numbers would pass the 32-bit
/// range after the numbers the groups before it raised.
pub open spec fn overflows_at(
    rs: Seq<RawItemRecord>,
    gs: Seq<(IdView, Seq<usize>)>,
    top: spec_fn(Seq<char>) -> int,
    k: int,
    v: IdView,
) -> bool {
    &&& 0 <= k < gs.len()
    &&& gs[k].0 == v
    &&& group_ready(rs, gs[k].1)
    &&& top_after(rs, gs, top, k)(v.0) + gs[k].1.len() - 1 > u32::MAX
}

/// A plan renumbers and traces only groups that could be read, and fails only for a group whose
/// numbers would pass the 32-bit range.
proof fn lemma_plan_shape(rs: Seq<RawItemRecord>, gs: Seq<(IdView, Seq<usize>)>, top: spec_fn(Seq<char>) -> int)
    ensures
        plan_from(rs, gs, top) is Ok ==> {
            let (reps, lins) = plan_from(rs, gs, top)->Ok_0;
            &&& forall|m: int| 0 <= m < reps.len() ==> of_ready_group(rs, gs, (#[trigger] reps[m]).2)
            &&& forall|m: int| 0 <= m < lins.len() ==> of_ready_group(rs, gs, (#[trigger] lins[m]).0)
        },
        plan_from(rs, gs, top) is Err ==> exists|k: int| overflows_at(rs, gs, top, k, plan_from(rs, gs, top)->Err_0),
    decreases gs.len(),
{
    if gs.len() > 0 {
        let v = gs[0].0;
        let s = gs[0].1;
        let rest = gs.drop_first();
        let top1 = top_after(rs, gs, top, 1);
        assert(top_after(rs, gs, top, 0) == top);
        lemma_plan_shape(rs, rest, top1);
        assert forall|w: IdView| of_ready_group(rs, rest, w) implies of_ready_group(rs, gs, w) by {
            let j = choose|j: int| 0 <= j < rest.len() && (#[trigger] rest[j]).0 == w && group_ready(rs, rest[j].1);
            assert(gs[j + 1] == rest[j]);
        }
        if plan_from(rs, rest, top1) is Err {
            let w = plan_from(rs, rest, top1)->Err_0;
            let k = choose|k: int| overflows_at(rs, rest, top1, k, w);
            lemma_top_after_shift(rs, gs, top, k);
            assert(gs[k + 1] == rest[k]);
            if plan_from(rs, gs, top) is Err && plan_from(rs, gs, top)->Err_0 == w {
                assert(overflows_at(rs, gs, top, k + 1, w));
            }
        }
        if group_ready(rs, s) {
            let base = top(v.0);
            let last = base + s.len() - 1;
            assert(top1 == bump(top, v.0, last));
            if last > u32::MAX {
                assert(overflows_at(rs, gs, top, 0, v));
            } else if plan_from(rs, gs, top) is Ok {
                let (r2, l2) = plan_from(rs, rest, top1)->Ok_0;
                let gr = group_repairs(v, s, base);
                let (reps, lins) = plan_from(rs, gs, top)->Ok_0;
                assert(reps == gr + r2);
                assert(lins == seq![(v, group_lineage(v, s.len(), base))] + l2);
                assert(of_ready_group(rs, gs, v)) by {
                    assert(gs[0].0 == v);
                }
                assert forall|m: int| 0 <= m < reps.len() implies of_ready_group(rs, gs, (#[trigger] reps[m]).2) by {
                    if m < gr.len() {
                        assert(reps[m] == gr[m]);
                    } else {
                        assert(reps[m] == r2[m - gr.len()]);
                    }
                }
                assert forall|m: int| 0 <= m < lins.len() implies of_ready_group(rs, gs, (#[trigger] lins[m]).0) by {
                    if m > 0 {
                        assert(lins[m] == l2[m - 1]);
                    }
                }
            }
        } else {
            assert(top1 == top);
        }
    }
}

/// The whole renumbering plan: a shared ID with a copy the strict reader could not build gets no
/// renumbering and no lineage, and planning fails only for a shared ID whose copies' next numbers,
/// after the numbers handed out to the shared IDs before it, would pass the 32-bit range.
pub proof fn lemma_repair_plan_law(
    rs: Seq<RawItemRecord>,
    issued: Seq<ItemId>,
    order: Seq<IdView>,
    arr: Seq<Seq<usize>>,
)
    requires
        duplicate_order(rs, order),
        grouped(rs, order, arr),
    ensures
        ({
            let gs = zip_groups(order, arr);
            let top0 = initial_top(rs, issued);
            let p = plan_from(rs, gs, top0);
            &&& p is Ok ==> forall|k: int|
                0 <= k < order.len() && !group_ready(rs, #[trigger] arr[k]) ==> {
                    &&& forall|m: int| 0 <= m < p->Ok_0.0.len() ==> (#[trigger] p->Ok_0.0[m]).2 != order[k]
                    &&& forall|m: int| 0 <= m < p->Ok_0.1.len() ==> (#[trigger] p->Ok_0.1[m]).0 != order[k]
                }
            &&& p is Err ==> exists|k: int| overflows_at(rs, gs, top0, k, p->Err_0)
        }),
{
    let gs = zip_groups(order, arr);
    let top0 = initial_top(rs, issued);
    lemma_plan_shape(rs, gs, top0);
    let p = plan_from(rs, gs, top0);
    if p is Ok {
        let (reps, lins) = p->Ok_0;
        assert forall|k: int| 0 <= k < order.len() && !group_ready(rs, #[trigger] arr[k]) implies {
            &&& forall|m: int| 0 <= m < reps.len() ==> (#[trigger] reps[m]).2 != order[k]
            &&& forall|m: int| 0 <= m < lins.len() ==> (#[trigger] lins[m]).0 != order[k]
        } by {
            assert forall|m: int| 0 <= m < reps.len() implies (#[trigger] reps[m]).2 != order[k] by {
                assert(of_ready_group(rs, gs, reps[m].2));
                let j = choose|j: int| 0 <= j < gs.len() && (#[trigger] gs[j]).0 == reps[m].2 && group_ready(rs, gs[j].1);
                if reps[m].2 == order[k] {
                    assert(gs[j].0 == order[j] && gs[j].1 == arr[j]);
                    if j < k {
                        assert(id_lt(order[j], order[k]));
                    } else if k < j {
                        assert(id_lt(order[k], order[j]));
                    }
                    lemma_id_order(order[k], order[k], order[k]);
                }
            }
            assert forall|m: int| 0 <= m < lins.len() implies (#[trigger] lins[m]).0 != order[k] by {
                assert(of_ready_group(rs, gs, lins[m].0));
                let j = choose|j: int| 0 <= j < gs.len() && (#[trigger] gs[j]).0 == lins[m].0 && group_ready(rs, gs[j].1);
                if lins[m].0 == order[k] {
                    assert(gs[j].0 == order[j] && gs[j].1 == arr[j]);
                    if j < k {
                        assert(id_lt(order[j], order[k]));
                    } else if k < j {
                        assert(id_lt(order[k], order[j]));
                    }
                    lemma_id_order(order[k], order[k], order[k]);
                }
            }
        }
    }
}

/// Plans already made, followed by the rest.
pub open spec fn prepend(
    reps: Seq<RepairView>,
    lins: Seq<LineageView>,
    rest: Result<(Seq<RepairView>, Seq<LineageView>), IdView>,
) -> Result<(Seq<RepairView>, Seq<LineageView>), IdView> {
    match rest {
        Ok((r, l)) => Ok((reps + r, lins + l)),
        Err(v) => Err(v),
    }
}

/// The groups: each shared ID with its records in keeping order.
pub open spec fn zip_groups(order: Seq<IdView>, arr: Seq<Seq<usize>>) -> Seq<(IdView, Seq<usize>)> {
    Seq::new(order.len(), |k: int| (order[k], arr[k]))
}

/// `arr` holds, for each shared ID of `order`, its records in keeping order.
pub open spec fn grouped(rs: Seq<RawItemRecord>, order: Seq<IdView>, arr: Seq<Seq<usize>>) -> bool {
    &&& arr.len() == order.len()
    &&& forall|k: int| 0 <= k < order.len() ==> arranged(rs, holders(rs, order[k]), #[trigger] arr[k])
}

/// A planned repair is the renumbering `m` of its record.
pub open spec fn repair_is(rs: Seq<RawItemRecord>, r: DuplicateRepair, m: RepairView) -> bool {
    &&& 0 <= m.0 < rs.len()
    &&& r.location@ == rs[m.0].location@
    &&& r.area == rs[m.0].area
    &&& r.occurrence == m.1
    &&& r.old_id@ == m.2
    &&& r.new_id@ == m.3
    &&& rs[m.0].parsed is Some
    &&& r.item.same_as(rs[m.0].parsed.unwrap())
}

/// The lineages as values.
pub open spec fn lineages_view(l: Seq<(ItemId, Vec<ItemId>)>) -> Seq<LineageView> {
    l.map_values(|e: (ItemId, Vec<ItemId>)| (e.0@, ids_view(e.1@)))
}

/// The plan holds the renumberings `reps` and the lineages `lins`.
pub open spec fn plan_is(
    rs: Seq<RawItemRecord>,
    repairs: Seq<DuplicateRepair>,
    lineages: Seq<(ItemId, Vec<ItemId>)>,
    reps: Seq<RepairView>,
    lins: Seq<LineageView>,
) -> bool {
    &&& repairs.len() == reps.len()
    &&& forall|k: int| 0 <= k < reps.len() ==> repair_is(rs, #[trigger] repairs[k], reps[k])
    &&& lineages_view(lineages) == lins
}

/// What the planner returns, against the planned values.
pub open spec fn plan_outcome(
    rs: Seq<RawItemRecord>,
    r: Result<DuplicateRepairPlan, Error>,
    p: Result<(Seq<RepairView>, Seq<LineageView>), IdView>,
) -> bool {
    match (r, p) {
        (Ok(plan), Ok((reps, lins))) => plan_is(rs, plan.repairs@, plan.lineages@, reps, lins),
        (Err(Error::InvalidItemId(t)), Err(v)) => t@ == id_text(v),
        _ => false,
    }
}

/// Numbers raised so far, per prefix, the latest entry first; `dflt` where a prefix was not raised.
pub open spec fn lookup(t: Seq<(Seq<char>, u32)>, q: Seq<char>, dflt: int) -> int
    decreases t.len(),
{
    if t.len() == 0 {
        dflt
    } else if t.last().0 == q {
        t.last().1 as int
    } else {
        lookup(t.drop_last(), q, dflt)
    }
}

/// The raised numbers as values.
pub open spec fn raised_view(t: Seq<(String, u32)>) -> Seq<(Seq<char>, u32)> {
    t.map_values(|e: (String, u32)| (e.0@, e.1))
}

/// The latest number raised for `prefix`, if any.
fn find_raised(t: &Vec<(String, u32)>, prefix: &String, Ghost(dflt): Ghost<int>) -> (r: Option<u32>)
    ensures
        r is Some ==> lookup(raised_view(t@), prefix@, dflt) == r.unwrap(),
        r is None ==> lookup(raised_view(t@), prefix@, dflt) == dflt,
{
    let mut i = t.len();
    assert(raised_view(t@).take(i as int) =~= raised_view(t@));
    while i > 0
        invariant
            i <= t@.len(),
            lookup(raised_view(t@), prefix@, dflt) == lookup(raised_view(t@).take(i as int), prefix@, dflt),
        decreases i,
    {
        let ghost tv = raised_view(t@).take(i as int);
        assert(tv.drop_last() =~= raised_view(t@).take(i - 1));
        assert(tv.last() == (t@[i - 1].0@, t@[i - 1].1));
        if text_eq(t[i - 1].0.as_str(), prefix.as_str()) {
            return Some(t[i - 1].1);
        }
        i = i - 1;
    }
    assert(raised_view(t@).take(0) =~= Seq::<(Seq<char>, u32)>::empty());
    None
}

/// Whether every record of the group holds a parsed item.
fn ready(records: &Vec<RawItemRecord>, s: &Vec<usize>) -> (r: bool)
    requires
        forall|k: int| 0 <= k < s@.len() ==> #[trigger] s@[k] < records@.len(),
    ensures
        r == group_ready(records@, s@),
{
    let n = s.len();
    let mut j: usize = 0;
    while j < n
        invariant
            n == s@.len(),
            j <= n,
            forall|k: int| 0 <= k < s@.len() ==> #[trigger] s@[k] < records@.len(),
            forall|k: int| 0 <= k < j ==> (#[trigger] records@[s@[k] as int]).parsed is Some,
        decreases n - j,
    {
        if records[s[j]].parsed.is_none() {
            assert(!((records@[s@[j as int] as int]).parsed is Some));
            return false;
        }
        j = j + 1;
    }
    true
}

/// Plan the renumbering of every item ID that two or more records share.
///
/// The shared IDs are handled in ID order. For each, the copy that keeps the ID is the first in
/// keeping order (task files, then archived files, then database rows; then by location); each
/// other copy, in that order, gets the next free number of the same prefix, above every number
/// a record's frontmatter or file name uses or the history has issued, and above the numbers
/// already handed out. A shared ID with a copy the strict reader could not build is left alone.
/// Fails with `InvalidItemId` (the shared ID) when the next numbers would pass the 32-bit range.
pub fn plan_duplicate_item_repairs(records: &Vec<RawItemRecord>, issued: &Vec<ItemId>) -> (r: Result<
    DuplicateRepairPlan,
    Error,
>)
    ensures
        exists|order: Seq<IdView>, arr: Seq<Seq<usize>>|
            duplicate_order(records@, order) && grouped(records@, order, arr) && #[trigger] plan_outcome(
                records@,
                r,
                plan_from(records@, zip_groups(order, arr), initial_top(records@, issued@)),
            ),
        r matches Ok(plan) ==> forall|k: int|
            0 <= k < plan.repairs@.len() ==> !taken_ids(records@, issued@).contains(
                (#[trigger] plan.repairs@[k]).new_id@,
            ),
        r matches Ok(plan) ==> forall|j: int, k: int|
            0 <= j < k < plan.repairs@.len() ==> (#[trigger] plan.repairs@[j]).new_id@ != (
            #[trigger] plan.repairs@[k]).new_id@,
{
    let ids = duplicate_ids(records);
    let nk = ids.len();
    let mut groups: Vec<Vec<usize>> = Vec::new();
    let mut k: usize = 0;
    while k < nk
        invariant
            nk == ids@.len(),
            k <= nk,
            groups@.len() == k,
            forall|j: int| 0 <= j < k ==> arranged(records@, holders(records@, ids@[j]@), #[trigger] groups@[j]@),
            forall|j: int, q: int| 0 <= j < k && 0 <= q < groups@[j]@.len() ==> #[trigger] groups@[j]@[q] < records@.len(),
        decreases nk - k,
    {
        let h = holders_of(records, &ids[k]);
        let s = arrange(records, &h);
        groups.push(s);
        k = k + 1;
    }
    let ghost rs = records@;
    let ghost order = ids_view(ids@);
    let ghost arr = groups@.map_values(|g: Vec<usize>| g@);
    let ghost gs = zip_groups(order, arr);
    let ghost top0 = initial_top(rs, issued@);
    proof {
        assert forall|j: int| 0 <= j < order.len() implies arranged(rs, holders(rs, order[j]), #[trigger] arr[j]) by {
            assert(order[j] == ids@[j]@);
            assert(arr[j] == groups@[j]@);
        }
        assert(grouped(rs, order, arr));
        assert(gs.skip(0) =~= gs);
    }
    let mut raised: Vec<(String, u32)> = Vec::new();
    let ghost mut top = top0;
    let mut repairs: Vec<DuplicateRepair> = Vec::new();
    let mut lineages: Vec<(ItemId, Vec<ItemId>)> = Vec::new();
    let ghost mut reps: Seq<RepairView> = seq![];
    let ghost mut lins: Seq<LineageView> = seq![];
    assert(lineages_view(lineages@) =~= lins);
    assert(prepend(reps, lins, plan_from(rs, gs, top0)) == plan_from(rs, gs, top0)) by {
        match plan_from(rs, gs, top0) {
            Ok((r2, l2)) => {
                assert(reps + r2 =~= r2);
                assert(lins + l2 =~= l2);
            },
            Err(_) => {},
        }
    }
    let mut g: usize = 0;
    while g < nk
        invariant
            nk == ids@.len(),
            g <= nk,
            rs == records@,
            order == ids_view(ids@),
            groups@.len() == nk,
            arr == groups@.map_values(|g: Vec<usize>| g@),
            gs == zip_groups(order, arr),
            top0 == initial_top(rs, issued@),
            duplicate_order(rs, order),
            grouped(rs, order, arr),
            forall|j: int, q: int| 0 <= j < nk && 0 <= q < groups@[j]@.len() ==> #[trigger] groups@[j]@[q] < records@.len(),
            plan_from(rs, gs, top0) == prepend(reps, lins, plan_from(rs, gs.skip(g as int), top)),
            forall|q: Seq<char>| #[trigger] top(q) == lookup(raised_view(raised@), q, highest(taken_ids(rs, issued@), q)),
            plan_is(rs, repairs@, lineages@, reps, lins),
        decreases nk - g,
    {
        let ghost rest = gs.skip(g as int);
        proof {
            assert(rest.drop_first() =~= gs.skip(g + 1));
            assert(rest[0] == gs[g as int]);
            assert(arr[g as int] == groups@[g as int]@);
        }
        let s = &groups[g];
        if !ready(records, s) {
            g = g + 1;
            continue;
        }
        let v = &ids[g];
        let ghost vv = v@;
        proof {
            assert(order[g as int] == vv);
            assert(arranged(rs, holders(rs, order[g as int]), arr[g as int]));
            assert(holders(rs, order[g as int]).len() >= 2);
        }
        let found = find_raised(&raised, &v.prefix, Ghost(highest(taken_ids(rs, issued@), vv.0)));
        let base: u32 = match found {
            Some(x) => x,
            None => highest_taken(records, issued, &v.prefix),
        };
        proof {
            lemma_highest_push(taken_ids(rs, issued@), vv, vv.0);
            assert(top(vv.0) == base);
        }
        let len = s.len();
        if len - 1 > (u32::MAX - base) as usize {
            let text = v.to_text();
            proof {
                assert(gs[g as int].1 == s@);
                assert(plan_from(rs, rest, top) == Err::<(Seq<RepairView>, Seq<LineageView>), IdView>(vv));
                assert(plan_outcome(rs, Err(Error::InvalidItemId(text)), plan_from(rs, gs, top0)));
                assert(plan_outcome(
                    records@,
                    Err(Error::InvalidItemId(text)),
                    plan_from(records@, zip_groups(order, arr), initial_top(records@, issued@)),
                ));
            }
            return Err(Error::InvalidItemId(text));
        }
        let last: u32 = base + ((len - 1) as u32);
        let mut ids_out: Vec<ItemId> = Vec::new();
        ids_out.push(v.copy());
        let ghost reps0 = reps;
        let mut j: usize = 1;
        while j < len
            invariant
                1 <= j <= len,
                len == s@.len(),
                len - 1 <= u32::MAX - base,
                forall|q: int| 0 <= q < s@.len() ==> #[trigger] s@[q] < records@.len(),
                group_ready(rs, s@),
                rs == records@,
                vv == v@,
                reps == reps0 + group_repairs(vv, s@, base as int).take(j - 1),
                ids_view(ids_out@) == group_lineage(vv, len as nat, base as int).take(j as int),
                repairs@.len() == reps.len(),
                forall|q: int| 0 <= q < reps.len() ==> repair_is(rs, #[trigger] repairs@[q], reps[q]),
            decreases len - j,
        {
            let idx = s[j];
            let num: u32 = base + (j as u32);
            let new_id = ItemId::new(v.prefix.as_str(), num);
            proof {
                assert(rs[idx as int].parsed is Some);
            }
            let item = records[idx].parsed.as_ref().unwrap().copy();
            let ghost m: RepairView = (idx as int, j, vv, new_id@);
            let ghost ids_before = ids_out@;
            ids_out.push(new_id.copy());
            repairs.push(DuplicateRepair {
                location: records[idx].location.clone(),
                area: records[idx].area,
                old_id: v.copy(),
                new_id,
                occurrence: j,
                item,
            });
            proof {
                let gr = group_repairs(vv, s@, base as int);
                assert(gr[j - 1] == m);
                assert(gr.take(j as int) =~= gr.take(j - 1).push(m));
                reps = reps.push(m);
                assert(reps =~= reps0 + gr.take(j as int));
                let gl = group_lineage(vv, len as nat, base as int);
                assert(gl[j as int] == new_id@);
                assert(ids_view(ids_out@) =~= ids_view(ids_before).push(new_id@));
                assert(gl.take(j + 1) =~= gl.take(j as int).push(gl[j as int]));
            }
            j = j + 1;
        }
        proof {
            let gr = group_repairs(vv, s@, base as int);
            assert(gr.take(len - 1) =~= gr);
            let gl = group_lineage(vv, len as nat, base as int);
            assert(gl.take(len as int) =~= gl);
        }
        let ghost lins0 = lins;
        lineages.push((v.copy(), ids_out));
        let ghost raised0 = raised@;
        raised.push((v.prefix.clone(), last));
        proof {
            let gr = group_repairs(vv, s@, base as int);
            let lin = (vv, group_lineage(vv, len as nat, base as int));
            lins = lins.push(lin);
            assert(lineages_view(lineages@) =~= lins);
            let top1 = bump(top, vv.0, last as int);
            assert forall|q: Seq<char>| #[trigger] top1(q) == lookup(raised_view(raised@), q, highest(taken_ids(rs, issued@), q)) by {
                assert(raised_view(raised@).drop_last() =~= raised_view(raised0));
                assert(raised_view(raised@).last() == (vv.0, last));
            }
            let after = plan_from(rs, gs.skip(g + 1), top1);
            assert(plan_from(rs, rest, top) == match after {
                Ok((r2, l2)) => Ok((gr + r2, seq![lin] + l2)),
                Err(e) => Err(e),
            });
            match after {
                Ok((r2, l2)) => {
                    assert(reps0 + (gr + r2) =~= (reps0 + gr) + r2);
                    assert(lins0 + (seq![lin] + l2) =~= lins0.push(lin) + l2);
                },
                Err(_) => {},
            }
            top = top1;
        }
        g = g + 1;
    }
    proof {
        assert(gs.skip(nk as int) =~= Seq::<(IdView, Seq<usize>)>::empty());
        assert(reps + seq![] =~= reps);
        assert(lins + seq![] =~= lins);
        assert(plan_outcome(rs, Ok(DuplicateRepairPlan { repairs, lineages }), plan_from(rs, gs, top0)));
        assert(plan_from(rs, gs, top0) == Ok::<(Seq<RepairView>, Seq<LineageView>), IdView>((reps, lins)));
        lemma_repairs_use_fresh_ids(rs, issued@, order, arr);
        assert forall|k: int| 0 <= k < repairs@.len() implies (#[trigger] repairs@[k]).new_id@ == reps[k].3 by {
            assert(repair_is(rs, repairs@[k], reps[k]));
        }
    }
    Ok(DuplicateRepairPlan { repairs, lineages })
}

// ---------------------------------------------------------------------------------------------
// Applying a renumbering to the item it concerns
// ---------------------------------------------------------------------------------------------

/// The lineage of `v` in a plan, if it has one (the first, where several would match).
pub open spec fn lineage_of(lins: Seq<LineageView>, v: IdView) -> Option<Seq<IdView>>
    decreases lins.len(),
{
    if lins.len() == 0 {
        None
    } else if lins[0].0 == v {
        Some(lins[0].1)
    } else {
        lineage_of(lins.drop_first(), v)
    }
}

/// Where a reference to `v` points from the copy `occurrence` of a renumbered group: to the
/// same copy of `v`'s group when `v` was renumbered too, otherwise to `v`.
pub open spec fn follow(lins: Seq<LineageView>, occurrence: usize, v: IdView) -> IdView {
    match lineage_of(lins, v) {
        Some(ids) => if occurrence < ids.len() {
            ids[occurrence as int]
        } else {
            v
        },
        None => v,
    }
}

/// Two items agree in every field but their ID and their links.
pub open spec fn same_but_links(a: BacklogItem, b: BacklogItem) -> bool {
    &&& a.title@ == b.title@
    &&& a.status@ == b.status@
    &&& a.rank@ == b.rank@
    &&& a.points == b.points
    &&& crate::backlog::opt_str(a.sprint) == crate::backlog::opt_str(b.sprint)
    &&& crate::backlog::strs_view(a.labels@) == crate::backlog::strs_view(b.labels@)
    &&& a.created == b.created
    &&& a.done_at == b.done_at
    &&& a.body@ == b.body@
    &&& crate::backlog::opt_str(a.assignee) == crate::backlog::opt_str(b.assignee)
    &&& a.start_at == b.start_at
    &&& crate::backlog::strs_view(a.commits@) == crate::backlog::strs_view(b.commits@)
    &&& a.updated == b.updated
    &&& crate::backlog::opt_source(a.source) == crate::backlog::opt_source(b.source)
}

/// The lineage of `id` in the plan, if it has one.
fn find_lineage<'a>(lineages: &'a Vec<(ItemId, Vec<ItemId>)>, id: &ItemId) -> (r: Option<&'a Vec<ItemId>>)
    ensures
        match (r, lineage_of(lineages_view(lineages@), id@)) {
            (Some(l), Some(v)) => ids_view(l@) == v,
            (None, None) => true,
            _ => false,
        },
{
    let ghost lv = lineages_view(lineages@);
    let n = lineages.len();
    let mut i: usize = 0;
    assert(lv.skip(0) =~= lv);
    while i < n
        invariant
            n == lineages@.len(),
            i <= n,
            lv == lineages_view(lineages@),
            lineage_of(lv, id@) == lineage_of(lv.skip(i as int), id@),
        decreases n - i,
    {
        assert(lv.skip(i as int).drop_first() =~= lv.skip(i + 1));
        assert(lv.skip(i as int)[0] == (lineages@[i as int].0@, ids_view(lineages@[i as int].1@)));
        if lineages[i].0.same(id) {
            return Some(&lineages[i].1);
        }
        i = i + 1;
    }
    assert(lv.skip(n as int) =~= Seq::<LineageView>::empty());
    None
}

/// Where a reference to `id` points from the copy `occurrence` of a renumbered group.
fn follow_id(lineages: &Vec<(ItemId, Vec<ItemId>)>, occurrence: usize, id: &ItemId) -> (r: ItemId)
    ensures
        r@ == follow(lineages_view(lineages@), occurrence, id@),
{
    match find_lineage(lineages, id) {
        Some(l) => if occurrence < l.len() {
            assert(ids_view(l@)[occurrence as int] == l@[occurrence as int]@);
            l[occurrence].copy()
        } else {
            id.copy()
        },
        None => id.copy(),
    }
}

/// The item a renumbering writes: the record's item under its new ID, with its parent and its
/// dependencies moved along the plan's lineages to the same copy.
pub fn renumbered_item(repair: &DuplicateRepair, lineages: &Vec<(ItemId, Vec<ItemId>)>) -> (item: BacklogItem)
    ensures
        item.id@ == repair.new_id@,
        opt_id(item.parent) == match opt_id(repair.item.parent) {
            Some(p) => Some(follow(lineages_view(lineages@), repair.occurrence, p)),
            None => None,
        },
        ids_view(item.depends_on@) == ids_view(repair.item.depends_on@).map_values(
            |d: IdView| follow(lineages_view(lineages@), repair.occurrence, d),
        ),
        same_but_links(item, repair.item),
{
    let ghost lv = lineages_view(lineages@);
    let occ = repair.occurrence;
    let mut item = repair.item.copy();
    item.id = repair.new_id.copy();
    item.parent = match &repair.item.parent {
        Some(p) => Some(follow_id(lineages, occ, p)),
        None => None,
    };
    let deps = &repair.item.depends_on;
    let n = deps.len();
    let mut out: Vec<ItemId> = Vec::new();
    let mut i: usize = 0;
    while i < n
        invariant
            n == deps@.len(),
            i <= n,
            lv == lineages_view(lineages@),
            ids_view(out@) == ids_view(deps@).take(i as int).map_values(|d: IdView| follow(lv, occ, d)),
        decreases n - i,
    {
        let f = follow_id(lineages, occ, &deps[i]);
        let ghost before = out@;
        out.push(f);
        proof {
            let dv = ids_view(deps@);
            assert(dv.take(i + 1) =~= dv.take(i as int).push(dv[i as int]));
            assert(ids_view(out@) =~= ids_view(before).push(f@));
            assert(dv.take(i + 1).map_values(|d: IdView| follow(lv, occ, d)) =~= dv.take(i as int).map_values(
                |d: IdView| follow(lv, occ, d),
            ).push(follow(lv, occ, dv[i as int])));
        }
        i = i + 1;
    }
    assert(ids_view(deps@).take(n as int) =~= ids_view(deps@));
    item.depends_on = out;
    item
}

// ---------------------------------------------------------------------------------------------
// Safe fixes: file names and the history of issued IDs
// ---------------------------------------------------------------------------------------------

/// The file name an item record should have: its ID followed by `.md`.
pub open spec fn md_name(v: IdView) -> Seq<char> {
    id_text(v) + seq!['.', 'm', 'd']
}

/// The file name record `i` should be renamed to: when its ID is valid and no other record
/// holds it, it lives in a file area (task or archive files), and its file name differs.
pub open spec fn rename_target(rs: Seq<RawItemRecord>, i: int) -> Option<Seq<char>> {
    match record_valid_id(rs[i]) {
        Some(v) => if holders(rs, v).len() == 1 && (rs[i].area is Tasks || rs[i].area is Archive) && match rs[i].filename {
            Some(f) => f@ != md_name(v),
            None => true,
        } {
            Some(md_name(v))
        } else {
            None
        },
        None => None,
    }
}

/// Record `i` is the first to hold its valid ID, and the history does not list that ID.
pub open spec fn unrecorded_at(rs: Seq<RawItemRecord>, issued: Seq<ItemId>, i: int) -> bool {
    match record_valid_id(rs[i]) {
        Some(v) => holders(rs, v)[0] == i && !issued_set(issued).contains(v),
        None => false,
    }
}

/// What a fixing run may change without judgement: the records to rename (position and new file
/// name), and the IDs to add to the history of issued IDs.
#[derive(Debug)]
pub struct SafeFixPlan {
    pub renames: Vec<(usize, String)>,
    pub unrecorded: Vec<ItemId>,
}

/// The renames as values.
pub open spec fn renames_view(r: Seq<(usize, String)>) -> Seq<(usize, Seq<char>)> {
    r.map_values(|e: (usize, String)| (e.0, e.1@))
}

/// The renames a scan calls for, in record order.
pub open spec fn planned_renames(rs: Seq<RawItemRecord>) -> Seq<(usize, Seq<char>)> {
    indices_where(rs.len() as int, |i: int| rename_target(rs, i) is Some).map_values(
        |i: usize| (i, rename_target(rs, i as int).unwrap()),
    )
}

/// The IDs missing from the history, in the order of the records that first hold them.
pub open spec fn planned_records(rs: Seq<RawItemRecord>, issued: Seq<ItemId>) -> Seq<IdView> {
    indices_where(rs.len() as int, |i: int| unrecorded_at(rs, issued, i)).map_values(
        |i: usize| record_valid_id(rs[i as int]).unwrap(),
    )
}

/// A record that holds `v` is among its holders.
proof fn lemma_holder(rs: Seq<RawItemRecord>, v: IdView, i: int)
    requires
        0 <= i < rs.len() <= usize::MAX,
        record_valid_id(rs[i]) == Some(v),
    ensures
        holders(rs, v).contains(i as usize),
{
    lemma_indices_where(rs.len() as int, |k: int| record_valid_id(rs[k]) == Some(v));
}

/// Plan the safe fixes of a scan: rename each record whose ID is valid and unique, in a file
/// area, to `ID.md` (the caller skips a rename whose target exists in either file area); and
/// record in the history each valid ID it does not list, once.
pub fn plan_safe_fixes(records: &Vec<RawItemRecord>, issued: &Vec<ItemId>) -> (r: SafeFixPlan)
    ensures
        renames_view(r.renames@) == planned_renames(records@),
        ids_view(r.unrecorded@) == planned_records(records@, issued@),
{
    let ghost rs = records@;
    let ghost rp = |i: int| rename_target(rs, i) is Some;
    let ghost up = |i: int| unrecorded_at(rs, issued@, i);
    let mut renames: Vec<(usize, String)> = Vec::new();
    let mut unrecorded: Vec<ItemId> = Vec::new();
    let n = records.len();
    let mut i: usize = 0;
    proof {
        reveal_strlit(".md");
    }
    while i < n
        invariant
            n == records@.len(),
            i <= n,
            rs == records@,
            rp == (|i: int| rename_target(rs, i) is Some),
            up == (|i: int| unrecorded_at(rs, issued@, i)),
            renames_view(renames@) == indices_where(i as int, rp).map_values(
                |i: usize| (i, rename_target(rs, i as int).unwrap()),
            ),
            ids_view(unrecorded@) == indices_where(i as int, up).map_values(
                |i: usize| record_valid_id(rs[i as int]).unwrap(),
            ),
            ".md"@ == seq!['.', 'm', 'd'],
        decreases n - i,
    {
        let ghost r0 = renames@;
        let ghost u0 = unrecorded@;
        match record_id(&records[i]) {
            Some(v) => {
                let h = holders_of(records, &v);
                proof {
                    lemma_holder(rs, v@, i as int);
                }
                let name = crate::text::cat(v.to_text().as_str(), ".md");
                let file_area = match records[i].area {
                    RecordArea::Tasks => true,
                    RecordArea::Archive => true,
                    _ => false,
                };
                let mismatch = match &records[i].filename {
                    Some(f) => !text_eq(f.as_str(), name.as_str()),
                    None => true,
                };
                if h.len() == 1 && file_area && mismatch {
                    renames.push((i, name));
                    proof {
                        assert(rp(i as int));
                        assert(renames_view(renames@) =~= renames_view(r0).push((i, md_name(v@))));
                    }
                } else {
                    assert(!rp(i as int));
                }
                let first = h[0] == i;
                if first && !listed(issued, &v) {
                    proof {
                        assert(up(i as int)) by {
                            assert(issued_set(issued@).contains(v@) ==> ids_view(issued@).contains(v@)) by {
                                if issued_set(issued@).contains(v@) {
                                    let k = choose|k: int| 0 <= k < issued@.len() && (#[trigger] issued@[k])@ == v@;
                                    assert(ids_view(issued@)[k] == v@);
                                }
                            }
                        }
                    }
                    unrecorded.push(v);
                    proof {
                        assert(ids_view(unrecorded@) =~= ids_view(u0).push(record_valid_id(rs[i as int]).unwrap()));
                    }
                } else {
                    proof {
                        if first && ids_view(issued@).contains(v@) {
                            let k = choose|k: int| 0 <= k < ids_view(issued@).len() && ids_view(issued@)[k] == v@;
                            assert(issued@[k]@ == v@);
                            assert(issued_set(issued@).contains(v@));
                        }
                    }
                    assert(!up(i as int));
                }
            },
            None => {
                assert(!rp(i as int));
                assert(!up(i as int));
            },
        }
        i = i + 1;
    }
    SafeFixPlan { renames, unrecorded }
}

} // verus!
