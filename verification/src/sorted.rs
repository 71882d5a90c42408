//! Strings in string order: sorting, de-duplication, and lookup by binary search.
//!
//! Strings compare byte-wise on their UTF-8 encoding, as Rust orders them; this is the key order
//! of the ordered maps the board's diagnostics walk.
use crate::text::lex_le;
use vstd::prelude::*;
use vstd::utf8::encode_utf8;

verus! {

/// The byte string a string compares by.
pub open spec fn key(s: Seq<char>) -> Seq<u8> {
    encode_utf8(s)
}

/// `a` sorts before or equal to `b`.
pub open spec fn str_leq(a: Seq<char>, b: Seq<char>) -> bool {
    lex_le(key(a), key(b))
}

/// The strings are in non-decreasing string order.
pub open spec fn is_sorted(v: Seq<String>) -> bool {
    forall|i: int, j: int| 0 <= i < j < v.len() ==> str_leq(#[trigger] v[i]@, #[trigger] v[j]@)
}

/// The strings are in strictly increasing string order (sorted and without repeats).
pub open spec fn is_strictly_sorted(v: Seq<String>) -> bool {
    &&& is_sorted(v)
    &&& forall|i: int, j: int| 0 <= i < j < v.len() ==> (#[trigger] v[i])@ != (#[trigger] v[j])@
}

pub proof fn lemma_lex_refl(a: Seq<u8>)
    ensures
        lex_le(a, a),
    decreases a.len(),
{
    if a.len() > 0 {
        lemma_lex_refl(a.drop_first());
    }
}

pub proof fn lemma_lex_total(a: Seq<u8>, b: Seq<u8>)
    ensures
        lex_le(a, b) || lex_le(b, a),
    decreases a.len(),
{
    if a.len() > 0 && b.len() > 0 && a[0] == b[0] {
        lemma_lex_total(a.drop_first(), b.drop_first());
    }
}

pub proof fn lemma_lex_antisym(a: Seq<u8>, b: Seq<u8>)
    requires
        lex_le(a, b),
        lex_le(b, a),
    ensures
        a == b,
    decreases a.len(),
{
    if a.len() > 0 && b.len() > 0 {
        lemma_lex_antisym(a.drop_first(), b.drop_first());
        assert(a =~= seq![a[0]] + a.drop_first());
        assert(b =~= seq![b[0]] + b.drop_first());
    } else if a.len() == 0 && b.len() == 0 {
        assert(a =~= b);
    }
}

pub proof fn lemma_lex_trans(a: Seq<u8>, b: Seq<u8>, c: Seq<u8>)
    requires
        lex_le(a, b),
        lex_le(b, c),
    ensures
        lex_le(a, c),
    decreases a.len(),
{
    if a.len() > 0 && b.len() > 0 && c.len() > 0 && a[0] == b[0] && b[0] == c[0] {
        lemma_lex_trans(a.drop_first(), b.drop_first(), c.drop_first());
    }
}

/// Strings with the same key are the same string.
pub proof fn lemma_key_injective(a: Seq<char>, b: Seq<char>)
    requires
        key(a) == key(b),
    ensures
        a == b,
{
    vstd::utf8::encode_utf8_decode_utf8(a);
    vstd::utf8::encode_utf8_decode_utf8(b);
}

/// `a` sorts before or equal to `b`.
pub fn string_le(a: &String, b: &String) -> (r: bool)
    ensures
        r == str_leq(a@, b@),
{
    crate::text::str_le(a.as_str(), b.as_str())
}

/// Merge two sorted lists into one sorted list holding both.
fn merge(a: Vec<String>, b: Vec<String>) -> (r: Vec<String>)
    requires
        is_sorted(a@),
        is_sorted(b@),
    ensures
        is_sorted(r@),
        r@.to_multiset() == a@.to_multiset().add(b@.to_multiset()),
{
    broadcast use vstd::seq_lib::group_to_multiset_ensures;

    let mut out: Vec<String> = Vec::new();
    let mut i: usize = 0;
    let mut j: usize = 0;
    let n = a.len();
    let m = b.len();
    while i < n || j < m
        invariant
            n == a@.len(),
            m == b@.len(),
            i <= n,
            j <= m,
            is_sorted(a@),
            is_sorted(b@),
            is_sorted(out@),
            out@.to_multiset() == a@.subrange(0, i as int).to_multiset().add(
                b@.subrange(0, j as int).to_multiset(),
            ),
            out@.len() > 0 && i < n ==> str_leq(out@.last()@, a@[i as int]@),
            out@.len() > 0 && j < m ==> str_leq(out@.last()@, b@[j as int]@),
        decreases n + m - i - j,
    {
        let take_a = if i < n && j < m {
            string_le(&a[i], &b[j])
        } else {
            i < n
        };
        let ghost old_out = out@;
        let ghost sa = a@.subrange(0, i as int);
        let ghost sb = b@.subrange(0, j as int);
        if take_a {
            out.push(a[i].clone());
            proof {
                assert(a@.subrange(0, i + 1) =~= sa.push(a@[i as int]));
                assert(out@ == old_out.push(a@[i as int]));
                old_out.to_multiset_ensures();
                sa.to_multiset_ensures();
                assert(out@.to_multiset() == old_out.to_multiset().insert(a@[i as int]));
                assert(a@.subrange(0, i + 1).to_multiset() == sa.to_multiset().insert(a@[i as int]));
                assert(out@.to_multiset() =~= a@.subrange(0, i + 1).to_multiset().add(sb.to_multiset()));
                if j < m {
                    assert(str_leq(a@[i as int]@, b@[j as int]@));
                }
                assert forall|x: int, y: int| 0 <= x < y < out@.len() implies str_leq(
                    #[trigger] out@[x]@,
                    #[trigger] out@[y]@,
                ) by {
                    if y == out@.len() - 1 && x < old_out.len() {
                        assert(str_leq(old_out[x]@, old_out.last()@)) by {
                            if x < old_out.len() - 1 {
                            } else {
                                lemma_lex_refl(key(old_out[x]@));
                            }
                        }
                        lemma_lex_trans(key(old_out[x]@), key(old_out.last()@), key(out@[y]@));
                    }
                }
                if i + 1 < n {
                    assert(str_leq(a@[i as int]@, a@[i + 1]@));
                }
            }
            i = i + 1;
        } else {
            out.push(b[j].clone());
            proof {
                assert(b@.subrange(0, j + 1) =~= sb.push(b@[j as int]));
                assert(out@ == old_out.push(b@[j as int]));
                old_out.to_multiset_ensures();
                sb.to_multiset_ensures();
                assert(out@.to_multiset() == old_out.to_multiset().insert(b@[j as int]));
                assert(b@.subrange(0, j + 1).to_multiset() == sb.to_multiset().insert(b@[j as int]));
                assert(out@.to_multiset() =~= sa.to_multiset().add(b@.subrange(0, j + 1).to_multiset()));
                if i < n {
                    lemma_lex_total(key(a@[i as int]@), key(b@[j as int]@));
                    assert(str_leq(b@[j as int]@, a@[i as int]@));
                }
                assert forall|x: int, y: int| 0 <= x < y < out@.len() implies str_leq(
                    #[trigger] out@[x]@,
                    #[trigger] out@[y]@,
                ) by {
                    if y == out@.len() - 1 && x < old_out.len() {
                        assert(str_leq(old_out[x]@, old_out.last()@)) by {
                            if x < old_out.len() - 1 {
                            } else {
                                lemma_lex_refl(key(old_out[x]@));
                            }
                        }
                        lemma_lex_trans(key(old_out[x]@), key(old_out.last()@), key(out@[y]@));
                    }
                }
                if j + 1 < m {
                    assert(str_leq(b@[j as int]@, b@[j + 1]@));
                }
            }
            j = j + 1;
        }
    }
    assert(a@.subrange(0, n as int) =~= a@);
    assert(b@.subrange(0, m as int) =~= b@);
    out
}

/// Sort strings into string order, keeping every copy.
pub fn sort_strings(v: Vec<String>) -> (r: Vec<String>)
    ensures
        is_sorted(r@),
        r@.to_multiset() == v@.to_multiset(),
    decreases v@.len(),
{
    broadcast use vstd::seq_lib::group_to_multiset_ensures;

    let n = v.len();
    if n <= 1 {
        return v;
    }
    let mid = n / 2;
    let mut left: Vec<String> = Vec::new();
    let mut right: Vec<String> = Vec::new();
    for k in 0..n
        invariant
            n == v@.len(),
            mid == n / 2,
            left@ == v@.subrange(0, if k < mid { k as int } else { mid as int }),
            right@ == if k < mid { Seq::<String>::empty() } else { v@.subrange(mid as int, k as int) },
    {
        if k < mid {
            left.push(v[k].clone());
            assert(left@ =~= v@.subrange(0, k + 1));
        } else {
            right.push(v[k].clone());
            assert(right@ =~= v@.subrange(mid as int, k + 1));
        }
    }
    proof {
        vstd::seq_lib::lemma_multiset_commutative(left@, right@);
        assert(left@ + right@ =~= v@);
    }
    let l = sort_strings(left);
    let r = sort_strings(right);
    merge(l, r)
}

/// The characters of each string.
pub open spec fn views(v: Seq<String>) -> Seq<Seq<char>> {
    v.map_values(|x: String| x@)
}

proof fn lemma_extend_strict(out: Seq<String>, x: String)
    requires
        is_strictly_sorted(out),
        out.len() > 0 ==> str_leq(out.last()@, x@) && out.last()@ != x@,
    ensures
        is_strictly_sorted(out.push(x)),
{
    let o = out.push(x);
    assert forall|a: int, b: int| 0 <= a < b < o.len() implies str_leq(#[trigger] o[a]@, #[trigger] o[b]@)
        && o[a]@ != o[b]@ by {
        if b == o.len() - 1 {
            let l = out.len() - 1;
            if a < l {
                assert(str_leq(out[a]@, out[l]@) && out[a]@ != out[l]@);
                lemma_lex_trans(key(out[a]@), key(out[l]@), key(x@));
                if out[a]@ == x@ {
                    lemma_lex_antisym(key(out[l]@), key(x@));
                    lemma_key_injective(out[l]@, x@);
                }
            }
        } else {
            assert(o[a] == out[a] && o[b] == out[b]);
        }
    }
}

/// Drop repeated strings from a sorted list, keeping one of each.
pub fn dedup_sorted(v: &Vec<String>) -> (r: Vec<String>)
    requires
        is_sorted(v@),
    ensures
        is_strictly_sorted(r@),
        views(r@).to_set() == views(v@).to_set(),
{
    let mut out: Vec<String> = Vec::new();
    let n = v.len();
    let mut i: usize = 0;
    while i < n
        invariant
            i <= n,
            n == v@.len(),
            is_sorted(v@),
            is_strictly_sorted(out@),
            views(out@).to_set() == views(v@.take(i as int)).to_set(),
            i == 0 ==> out@.len() == 0,
            i > 0 ==> out@.len() > 0 && out@.last()@ == v@[i - 1]@,
        decreases n - i,
    {
        let ghost old_out = out@;
        let ghost x = v@[i as int]@;
        proof {
            assert(views(v@.take(i + 1)) =~= views(v@.take(i as int)).push(x));
            views(v@.take(i as int)).lemma_push_to_set_commute(x);
        }
        if out.len() == 0 || out[out.len() - 1] != v[i] {
            proof {
                if out@.len() > 0 {
                    assert(str_leq(v@[i - 1]@, v@[i as int]@));
                }
                lemma_extend_strict(old_out, v@[i as int]);
            }
            out.push(v[i].clone());
            proof {
                assert(views(out@) =~= views(old_out).push(x));
                views(old_out).lemma_push_to_set_commute(x);
            }
        } else {
            proof {
                assert(views(old_out)[old_out.len() - 1] == x);
                assert(views(old_out).contains(x));
                assert(views(out@).to_set() =~= views(v@.take(i + 1)).to_set());
            }
        }
        i = i + 1;
    }
    assert(v@.take(n as int) =~= v@);
    out
}

/// Position of `target` in a strictly sorted list, by binary search.
pub fn find_sorted(v: &Vec<String>, target: &String) -> (r: Option<usize>)
    requires
        is_strictly_sorted(v@),
    ensures
        match r {
            Some(k) => k < v@.len() && v@[k as int]@ == target@,
            None => forall|k: int| 0 <= k < v@.len() ==> #[trigger] v@[k]@ != target@,
        },
{
    let mut lo: usize = 0;
    let mut hi: usize = v.len();
    while lo < hi
        invariant
            hi <= v@.len(),
            lo <= hi,
            is_strictly_sorted(v@),
            forall|k: int| 0 <= k < lo ==> !str_leq(target@, #[trigger] v@[k]@),
            forall|k: int| hi <= k < v@.len() ==> str_leq(target@, #[trigger] v@[k]@) && v@[k]@ != target@,
        decreases hi - lo,
    {
        let mid = lo + (hi - lo) / 2;
        if v[mid] == *target {
            return Some(mid);
        }
        if string_le(target, &v[mid]) {
            proof {
                assert forall|k: int| mid <= k < v@.len() implies str_leq(target@, #[trigger] v@[k]@) && v@[k]@ != target@ by {
                    if k > mid {
                        lemma_lex_trans(key(target@), key(v@[mid as int]@), key(v@[k]@));
                        if v@[k]@ == target@ {
                            lemma_lex_antisym(key(v@[mid as int]@), key(target@));
                            lemma_key_injective(v@[mid as int]@, target@);
                        }
                    }
                }
            }
            hi = mid;
        } else {
            proof {
                assert forall|k: int| 0 <= k < mid + 1 implies !str_leq(target@, #[trigger] v@[k]@) by {
                    if k < mid {
                        if str_leq(target@, v@[k]@) {
                            lemma_lex_trans(key(target@), key(v@[k]@), key(v@[mid as int]@));
                        }
                    }
                }
            }
            lo = mid + 1;
        }
    }
    proof {
        assert forall|k: int| 0 <= k < v@.len() implies #[trigger] v@[k]@ != target@ by {
            if k < lo && v@[k]@ == target@ {
                lemma_lex_refl(key(target@));
            }
        }
    }
    None
}


/// `a` sorts strictly before `b`.
pub open spec fn str_lt(a: Seq<char>, b: Seq<char>) -> bool {
    str_leq(a, b) && a != b
}

pub proof fn lemma_str_lt_trans(a: Seq<char>, b: Seq<char>, c: Seq<char>)
    requires
        str_lt(a, b),
        str_lt(b, c),
    ensures
        str_lt(a, c),
{
    lemma_lex_trans(key(a), key(b), key(c));
    if a == c {
        lemma_lex_antisym(key(a), key(b));
        lemma_key_injective(a, b);
    }
}

pub proof fn lemma_str_leq_lt(a: Seq<char>, b: Seq<char>, c: Seq<char>)
    requires
        str_leq(a, b),
        str_lt(b, c),
    ensures
        str_lt(a, c),
{
    lemma_lex_trans(key(a), key(b), key(c));
    if a == c {
        lemma_lex_antisym(key(b), key(c));
        lemma_key_injective(b, c);
    }
}

pub proof fn lemma_str_lt_leq(a: Seq<char>, b: Seq<char>, c: Seq<char>)
    requires
        str_lt(a, b),
        str_leq(b, c),
    ensures
        str_lt(a, c),
{
    lemma_lex_trans(key(a), key(b), key(c));
    if a == c {
        lemma_lex_antisym(key(a), key(b));
        lemma_key_injective(a, b);
    }
}

pub proof fn lemma_str_lt_total(a: Seq<char>, b: Seq<char>)
    requires
        a != b,
    ensures
        str_lt(a, b) || str_lt(b, a),
{
    lemma_lex_total(key(a), key(b));
}

pub proof fn lemma_str_lt_asym(a: Seq<char>, b: Seq<char>)
    requires
        str_lt(a, b),
    ensures
        !str_leq(b, a),
{
    if str_leq(b, a) {
        lemma_lex_antisym(key(a), key(b));
        lemma_key_injective(a, b);
    }
}

/// Lists of strings in list order: element by element, a list before its extensions.
pub open spec fn list_lt(a: Seq<Seq<char>>, b: Seq<Seq<char>>) -> bool
    decreases a.len(),
{
    if a.len() == 0 {
        b.len() > 0
    } else if b.len() == 0 {
        false
    } else if a[0] == b[0] {
        list_lt(a.drop_first(), b.drop_first())
    } else {
        str_leq(a[0], b[0])
    }
}

pub proof fn lemma_list_lt_irreflexive(a: Seq<Seq<char>>)
    ensures
        !list_lt(a, a),
    decreases a.len(),
{
    if a.len() > 0 {
        lemma_list_lt_irreflexive(a.drop_first());
    }
}

pub proof fn lemma_list_lt_trans(a: Seq<Seq<char>>, b: Seq<Seq<char>>, c: Seq<Seq<char>>)
    requires
        list_lt(a, b),
        list_lt(b, c),
    ensures
        list_lt(a, c),
    decreases a.len(),
{
    if a.len() > 0 && b.len() > 0 && c.len() > 0 {
        if a[0] == b[0] && b[0] == c[0] {
            lemma_list_lt_trans(a.drop_first(), b.drop_first(), c.drop_first());
        } else if a[0] == b[0] {
            assert(str_lt(b[0], c[0]));
        } else if b[0] == c[0] {
            assert(str_lt(a[0], b[0]));
        } else {
            lemma_str_lt_trans(a[0], b[0], c[0]);
        }
    }
}

pub proof fn lemma_list_lt_total(a: Seq<Seq<char>>, b: Seq<Seq<char>>)
    ensures
        a == b || list_lt(a, b) || list_lt(b, a),
    decreases a.len(),
{
    if a.len() > 0 && b.len() > 0 {
        if a[0] == b[0] {
            lemma_list_lt_total(a.drop_first(), b.drop_first());
            if a.drop_first() == b.drop_first() {
                assert(a =~= seq![a[0]] + a.drop_first());
                assert(b =~= seq![b[0]] + b.drop_first());
            }
        } else {
            lemma_str_lt_total(a[0], b[0]);
        }
    } else if a.len() == 0 && b.len() == 0 {
        assert(a =~= b);
    }
}

pub proof fn lemma_list_lt_asym(a: Seq<Seq<char>>, b: Seq<Seq<char>>)
    requires
        list_lt(a, b),
    ensures
        !list_lt(b, a),
    decreases a.len(),
{
    if a.len() > 0 && b.len() > 0 {
        if a[0] == b[0] {
            lemma_list_lt_asym(a.drop_first(), b.drop_first());
        } else {
            lemma_str_lt_asym(a[0], b[0]);
        }
    }
}

/// Three-way comparison of two lists of strings in list order: negative, zero or positive.
pub fn compare_lists(a: &Vec<String>, b: &Vec<String>) -> (r: i8)
    ensures
        r == 0 <==> views(a@) == views(b@),
        r < 0 <==> list_lt(views(a@), views(b@)),
        r > 0 <==> list_lt(views(b@), views(a@)),
{
    let ghost va = views(a@);
    let ghost vb = views(b@);
    let mut i: usize = 0;
    assert(va.skip(0) =~= va);
    assert(vb.skip(0) =~= vb);
    while i < a.len() && i < b.len() && a[i] == b[i]
        invariant
            i <= a@.len(),
            i <= b@.len(),
            va == views(a@),
            vb == views(b@),
            va.take(i as int) == vb.take(i as int),
            list_lt(va, vb) == list_lt(va.skip(i as int), vb.skip(i as int)),
            list_lt(vb, va) == list_lt(vb.skip(i as int), va.skip(i as int)),
        decreases a@.len() - i,
    {
        proof {
            assert(va.skip(i as int).drop_first() =~= va.skip(i + 1));
            assert(vb.skip(i as int).drop_first() =~= vb.skip(i + 1));
            assert(va.take(i + 1) =~= va.take(i as int).push(va[i as int]));
            assert(vb.take(i + 1) =~= vb.take(i as int).push(vb[i as int]));
        }
        i = i + 1;
    }
    proof {
        lemma_list_lt_irreflexive(va);
    }
    if i == a.len() && i == b.len() {
        assert(va =~= va.take(i as int));
        assert(vb =~= vb.take(i as int));
        return 0;
    }
    if i == a.len() {
        assert(va.skip(i as int).len() == 0);
        assert(va != vb);
        return -1;
    }
    if i == b.len() {
        assert(vb.skip(i as int).len() == 0);
        assert(va != vb) by {
            assert(va.len() != vb.len());
        }
        return 1;
    }
    assert(va.skip(i as int)[0] == va[i as int]);
    assert(vb.skip(i as int)[0] == vb[i as int]);
    assert(va != vb) by {
        assert(va[i as int] != vb[i as int]);
    }
    if string_le(&a[i], &b[i]) {
        proof {
            lemma_str_lt_asym(va[i as int], vb[i as int]);
        }
        -1
    } else {
        proof {
            lemma_str_lt_total(va[i as int], vb[i as int]);
        }
        1
    }
}

/// The lists are in strictly increasing list order.
pub open spec fn lists_strictly_ordered(l: Seq<Vec<String>>) -> bool {
    forall|i: int, j: int|
        0 <= i < j < l.len() ==> list_lt(views((#[trigger] l[i])@), views((#[trigger] l[j])@))
}

/// Insert `c` into a strictly ordered list of lists, unless a list with the same strings is there.
pub fn insert_list(list: &mut Vec<Vec<String>>, c: Vec<String>)
    requires
        lists_strictly_ordered(old(list)@),
    ensures
        lists_strictly_ordered(final(list)@),
        final(list)@.len() > 0,
        final(list)@.len() <= old(list)@.len() + 1,
        forall|k: int|
            0 <= k < final(list)@.len() ==> old(list)@.contains(#[trigger] final(list)@[k])
                || final(list)@[k]@ == c@,
        forall|k: int|
            0 <= k < old(list)@.len() ==> final(list)@.contains(#[trigger] old(list)@[k]),
        exists|k: int| 0 <= k < final(list)@.len() && views(#[trigger] final(list)@[k]@) == views(c@),
{
    let ghost old_list = list@;
    let n = list.len();
    let mut p: usize = 0;
    while p < n && compare_lists(&list[p], &c) < 0
        invariant
            p <= n,
            n == list@.len(),
            list@ == old_list,
            lists_strictly_ordered(old_list),
            forall|k: int| 0 <= k < p ==> list_lt(views((#[trigger] list@[k])@), views(c@)),
        decreases n - p,
    {
        p = p + 1;
    }
    if p < n && compare_lists(&list[p], &c) == 0 {
        assert(list@.contains(list@[p as int]));
        return;
    }
    proof {
        if p < n {
            lemma_list_lt_total(views(list@[p as int]@), views(c@));
        }
    }
    list.insert(p, c);
    proof {
        let l = list@;
        assert(l[p as int]@ == c@);
        assert forall|i: int, j: int| 0 <= i < j < l.len() implies list_lt(
            views((#[trigger] l[i])@),
            views((#[trigger] l[j])@),
        ) by {
            if i < p && j == p {
            } else if i < p && j > p {
                assert(l[i] == old_list[i]);
                assert(l[j] == old_list[j - 1]);
            } else if i == p && j > p {
                assert(l[j] == old_list[j - 1]);
                if j - 1 > p {
                    lemma_list_lt_trans(views(c@), views(old_list[p as int]@), views(old_list[j - 1]@));
                }
            } else if j < p {
                assert(l[i] == old_list[i]);
                assert(l[j] == old_list[j]);
            } else {
                assert(l[i] == old_list[i - 1]);
                assert(l[j] == old_list[j - 1]);
            }
        }
        assert forall|k: int| 0 <= k < old_list.len() implies l.contains(#[trigger] old_list[k]) by {
            if k < p {
                assert(l[k] == old_list[k]);
            } else {
                assert(l[k + 1] == old_list[k]);
            }
        }
        assert forall|k: int| 0 <= k < l.len() implies old_list.contains(#[trigger] l[k]) || l[k]@ == c@ by {
            if k < p {
                assert(l[k] == old_list[k]);
            } else if k > p {
                assert(l[k] == old_list[k - 1]);
            }
        }
    }
}
} // verus!
