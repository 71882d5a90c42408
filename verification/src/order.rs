//! Canonical hierarchical (parent/child tree) ordering shared by `list`, `board`, and `next`.
//!
//! Priority is hierarchical: a parent's position dominates its descendants', so the input order
//! ranks siblings (roots among themselves and the children of one parent) while the tree structure
//! decides the overall order. Every view flattens the same forest with [`hierarchical_order`].
use crate::backlog::{item_ids, opt_id, BacklogItem};
use crate::index::{last_index_of, IdIndex};
use vstd::prelude::*;

verus! {

/// The indices `0..n` that satisfy `pred`, in increasing order.
pub open spec fn indices_where(n: int, pred: spec_fn(int) -> bool) -> Seq<usize>
    decreases n,
{
    if n <= 0 {
        seq![]
    } else if pred(n - 1) {
        indices_where(n - 1, pred).push((n - 1) as usize)
    } else {
        indices_where(n - 1, pred)
    }
}

/// Which indices `indices_where` lists, and that it lists them in increasing order.
pub proof fn lemma_indices_where(n: int, pred: spec_fn(int) -> bool)
    requires
        n <= usize::MAX,
    ensures
        forall|k: int|
            0 <= k < indices_where(n, pred).len() ==> {
                let v = #[trigger] indices_where(n, pred)[k] as int;
                0 <= v < n && pred(v)
            },
        forall|a: int, b: int|
            0 <= a < b < indices_where(n, pred).len() ==> indices_where(n, pred)[a]
                < indices_where(n, pred)[b],
        forall|i: int|
            0 <= i < n && pred(i) ==> #[trigger] indices_where(n, pred).contains(i as usize),
        indices_where(n, pred).len() <= if n < 0 { 0 } else { n },
    decreases n,
{
    if n > 0 {
        lemma_indices_where(n - 1, pred);
        let prev = indices_where(n - 1, pred);
        if pred(n - 1) {
            let cur = prev.push((n - 1) as usize);
            assert(indices_where(n, pred) == cur);
            assert forall|k: int| 0 <= k < cur.len() implies {
                let v = #[trigger] cur[k] as int;
                0 <= v < n && pred(v)
            } by {
                if k < prev.len() {
                    assert(cur[k] == prev[k]);
                }
            }
            assert forall|a: int, b: int| 0 <= a < b < cur.len() implies cur[a] < cur[b] by {
                assert(cur[a] == prev[a]);
                if b < prev.len() {
                    assert(cur[b] == prev[b]);
                }
            }
            assert forall|i: int| 0 <= i < n && pred(i) implies #[trigger] cur.contains(
                i as usize,
            ) by {
                if i < n - 1 {
                    assert(prev.contains(i as usize));
                    let w = choose|w: int| 0 <= w < prev.len() && prev[w] == i as usize;
                    assert(cur[w] == i as usize);
                } else {
                    assert(cur[prev.len() as int] == i as usize);
                }
            }
        } else {
            assert forall|i: int| 0 <= i < n && pred(i) implies #[trigger] prev.contains(
                i as usize,
            ) by {
                assert(i < n - 1);
            }
        }
    }
}

/// The position of an item's parent within the list, if the parent is in the list.
pub open spec fn parent_slot(items: Seq<BacklogItem>, i: int) -> Option<int> {
    match opt_id(items[i].parent) {
        Some(p) => last_index_of(item_ids(items), p),
        None => None,
    }
}

/// An item is a root when it has no parent in the list or points at itself.
pub open spec fn is_root(items: Seq<BacklogItem>, i: int) -> bool {
    match parent_slot(items, i) {
        Some(p) => p == i,
        None => true,
    }
}

/// Item `c` is a direct child of item `p` within the list.
pub open spec fn is_child_of(items: Seq<BacklogItem>, c: int, p: int) -> bool {
    parent_slot(items, c) == Some(p) && p != c
}

/// The root indices, in input order.
pub open spec fn roots_of(items: Seq<BacklogItem>) -> Seq<usize> {
    indices_where(items.len() as int, |i: int| is_root(items, i))
}

/// The direct children of `p`, in input order.
pub open spec fn children_of(items: Seq<BacklogItem>, p: int) -> Seq<usize> {
    indices_where(items.len() as int, |c: int| is_child_of(items, c, p))
}

/// A set of indices that holds every root and every child of its members.
pub open spec fn closed_under_children(items: Seq<BacklogItem>, s: Set<int>) -> bool {
    &&& forall|r: int| 0 <= r < items.len() && is_root(items, r) ==> #[trigger] s.contains(r)
    &&& forall|p: int, c: int|
        #![trigger s.contains(p), is_child_of(items, c, p)]
        s.contains(p) && 0 <= c < items.len() && is_child_of(items, c, p) ==> s.contains(c)
}

/// An item is reachable when it descends from a root through child links.
pub open spec fn reachable(items: Seq<BacklogItem>, i: int) -> bool {
    forall|s: Set<int>| #[trigger] closed_under_children(items, s) ==> s.contains(i)
}

/// The indices that no root reaches (members of parent-link cycles and their descendants).
pub open spec fn unreachable_of(items: Seq<BacklogItem>) -> Seq<usize> {
    indices_where(items.len() as int, |i: int| !reachable(items, i))
}

/// Parent/child forest over a set of items, classified by membership in that set.
pub struct Forest {
    /// Root item indices (no parent, parent outside the set, or self-parent), in input order.
    pub roots: Vec<usize>,
    /// Direct children per item index, in input order; empty when none.
    pub children: Vec<Vec<usize>>,
    /// Indices unreachable from any root (parent-link cycles), in input order.
    pub unreachable: Vec<usize>,
}

impl Forest {
    /// The children lists as sequences.
    pub open spec fn child_lists(self) -> Seq<Seq<usize>> {
        self.children@.map_values(|v: Vec<usize>| v@)
    }

    /// This forest is the forest of `items`.
    pub open spec fn describes(self, items: Seq<BacklogItem>) -> bool {
        &&& self.roots@ == roots_of(items)
        &&& self.children@.len() == items.len()
        &&& forall|p: int| 0 <= p < items.len() ==> #[trigger] self.children@[p]@ == children_of(items, p)
        &&& self.unreachable@ == unreachable_of(items)
    }
}

/// Number of unset flags.
pub open spec fn count_unset(flags: Seq<bool>) -> nat
    decreases flags.len(),
{
    if flags.len() == 0 {
        0
    } else {
        count_unset(flags.drop_last()) + if flags.last() { 0nat } else { 1nat }
    }
}

/// Setting an unset flag lowers the number of unset flags by one.
pub proof fn lemma_count_unset_set(flags: Seq<bool>, i: int)
    requires
        0 <= i < flags.len(),
        !flags[i],
    ensures
        count_unset(flags.update(i, true)) + 1 == count_unset(flags),
    decreases flags.len(),
{
    let u = flags.update(i, true);
    if i < flags.len() - 1 {
        assert(u.drop_last() =~= flags.drop_last().update(i, true));
        lemma_count_unset_set(flags.drop_last(), i);
    } else {
        assert(u.drop_last() =~= flags.drop_last());
    }
}

/// Classify `items` into a [`Forest`] by parent membership within the same set.
///
/// An item is a root when it has no parent, its parent is not part of `items`, or it points at
/// itself. Items reachable only through a parent-link cycle land in [`Forest::unreachable`] so
/// nothing is dropped from the view.
pub fn build_forest(items: &[BacklogItem]) -> (f: Forest)
    ensures
        f.describes(items@),
{
    let n = items.len();
    let ghost s = items@;
    let index = IdIndex::build(items);
    let mut children: Vec<Vec<usize>> = Vec::new();
    for k in 0..n
        invariant
            n == s.len(),
            children@.len() == k,
            forall|p: int| 0 <= p < k ==> (#[trigger] children@[p])@.len() == 0,
    {
        children.push(Vec::new());
    }
    let mut roots: Vec<usize> = Vec::new();
    for i in 0..n
        invariant
            n == s.len(),
            s == items@,
            index.indexes(item_ids(s)),
            children@.len() == n,
            roots@ == indices_where(i as int, |r: int| is_root(s, r)),
            forall|p: int|
                0 <= p < n ==> #[trigger] children@[p]@ == indices_where(
                    i as int,
                    |c: int| is_child_of(s, c, p),
                ),
    {
        let slot = match &items[i].parent {
            Some(p) => index.lookup(p, Ghost(item_ids(s))),
            None => None,
        };
        assert(match (slot, parent_slot(s, i as int)) {
            (Some(a), Some(b)) => a as int == b,
            (None, None) => true,
            _ => false,
        });
        let ghost old_children = children@;
        match slot {
            Some(pi) if pi != i => {
                proof {
                    crate::index::lemma_last_index_of(item_ids(s), opt_id(s[i as int].parent)->0);
                }
                children[pi].push(i);
                assert forall|p: int| 0 <= p < n implies #[trigger] children@[p]@ == indices_where(
                    i + 1,
                    |c: int| is_child_of(s, c, p),
                ) by {
                    if p != pi {
                        assert(children@[p] == old_children[p]);
                    }
                }
            },
            _ => {
                roots.push(i);
                assert forall|p: int| 0 <= p < n implies #[trigger] children@[p]@ == indices_where(
                    i + 1,
                    |c: int| is_child_of(s, c, p),
                ) by {
                    assert(children@[p] == old_children[p]);
                }
            },
        }
    }
    proof {
        assert forall|p: int| 0 <= p < n implies #[trigger] children@[p]@ == children_of(s, p) by {}
    }
    // Mark everything reachable from a root, following children.
    let mut reached: Vec<bool> = Vec::new();
    for k in 0..n
        invariant
            reached@.len() == k,
            forall|j: int| 0 <= j < k ==> !#[trigger] reached@[j],
    {
        reached.push(false);
    }
    let mut stack: Vec<usize> = roots.clone();
    proof {
        lemma_indices_where(n as int, |r: int| is_root(s, r));
        assert forall|k: int| 0 <= k < stack@.len() implies reachable(s, #[trigger] stack@[k] as int) by {
            let r = stack@[k] as int;
            assert(is_root(s, r));
            assert forall|st: Set<int>| #[trigger] closed_under_children(s, st) implies st.contains(r) by {}
        }
        assert forall|r: int| 0 <= r < n && is_root(s, r) implies #[trigger] reached@[r] || stack@.contains(r as usize) by {
            assert(roots@.contains(r as usize));
        }
    }
    while stack.len() > 0
        invariant
            n == s.len(),
            s == items@,
            reached@.len() == n,
            children@.len() == n,
            forall|p: int| 0 <= p < n ==> #[trigger] children@[p]@ == children_of(s, p),
            forall|k: int| 0 <= k < stack@.len() ==> #[trigger] stack@[k] < n,
            forall|k: int| 0 <= k < stack@.len() ==> reachable(s, #[trigger] stack@[k] as int),
            forall|j: int| 0 <= j < n && #[trigger] reached@[j] ==> reachable(s, j),
            forall|r: int|
                0 <= r < n && is_root(s, r) ==> #[trigger] reached@[r] || stack@.contains(
                    r as usize,
                ),
            forall|p: int, c: int|
                #![trigger reached@[p], is_child_of(s, c, p)]
                0 <= p < n && 0 <= c < n && reached@[p] && is_child_of(s, c, p) ==> reached@[c]
                    || stack@.contains(c as usize),
        decreases count_unset(reached@), stack@.len(),
    {
        let ghost full = stack@;
        let i = stack.pop().unwrap();
        assert(full == stack@.push(i));
        assert(full[full.len() - 1] == i);
        assert forall|c: usize| #[trigger] full.contains(c) implies stack@.contains(c) || c == i by {
            let w = choose|w: int| 0 <= w < full.len() && full[w] == c;
            if w < stack@.len() {
                assert(stack@[w] == full[w]);
            }
        }
        if reached[i] {
            continue;
        }
        let ghost before = reached@;
        reached.set(i, true);
        proof {
            lemma_count_unset_set(before, i as int);
        }
        let m = children[i].len();
        let ghost st0 = stack@;
        let ghost ci = children_of(s, i as int);
        proof {
            lemma_indices_where(n as int, |c: int| is_child_of(s, c, i as int));
            assert(reachable(s, i as int));
        }
        for t in 0..m
            invariant
                n == s.len(),
                i < n,
                m == ci.len(),
                children@.len() == n,
                children@[i as int]@ == ci,
                ci == children_of(s, i as int),
                stack@.len() == st0.len() + t,
                forall|k: int| 0 <= k < st0.len() ==> #[trigger] stack@[k] == st0[k],
                forall|k: int| 0 <= k < t ==> #[trigger] stack@[st0.len() + k] == ci[k],
        {
            stack.push(children[i][t]);
        }
        proof {
            assert forall|k: int| 0 <= k < stack@.len() implies #[trigger] stack@[k] < n && reachable(s, stack@[k] as int) by {
                if k < st0.len() {
                    assert(stack@[k] == st0[k]);
                    assert(full[k] == st0[k]);
                } else {
                    let kk = k - st0.len();
                    let c = ci[kk] as int;
                    assert(stack@[st0.len() + kk] == ci[kk]);
                    assert(is_child_of(s, c, i as int));
                    assert forall|st: Set<int>| #[trigger] closed_under_children(s, st) implies st.contains(c) by {
                        assert(st.contains(i as int));
                    }
                }
            }
            assert forall|c: usize| #[trigger] st0.contains(c) implies stack@.contains(c) by {
                let w = choose|w: int| 0 <= w < st0.len() && st0[w] == c;
                assert(stack@[w] == st0[w]);
            }
            assert forall|c: int| 0 <= c < n && is_child_of(s, c, i as int) implies stack@.contains(c as usize) by {
                assert(ci.contains(c as usize));
                let w = choose|w: int| 0 <= w < ci.len() && ci[w] == c as usize;
                assert(stack@[st0.len() + w] == ci[w]);
            }
            assert forall|j: int| 0 <= j < n && #[trigger] reached@[j] implies reachable(s, j) by {
                if j != i {
                    assert(before[j]);
                }
            }
            assert forall|r: int| 0 <= r < n && is_root(s, r) implies #[trigger] reached@[r] || stack@.contains(r as usize) by {
                if r != i {
                    assert(before[r] == reached@[r]);
                }
            }
            assert forall|p: int, c: int|
                #![trigger reached@[p], is_child_of(s, c, p)]
                0 <= p < n && 0 <= c < n && reached@[p] && is_child_of(s, c, p) implies reached@[c]
                    || stack@.contains(c as usize) by {
                if p != i {
                    assert(before[p]);
                    if c != i {
                        assert(before[c] == reached@[c]);
                    }
                }
            }
        }
    }
    let ghost marked = Set::new(|j: int| 0 <= j < n && reached@[j]);
    proof {
        assert(closed_under_children(s, marked));
    }
    let mut unreachable: Vec<usize> = Vec::new();
    for i in 0..n
        invariant
            n == s.len(),
            reached@.len() == n,
            closed_under_children(s, marked),
            marked == Set::new(|j: int| 0 <= j < n && reached@[j]),
            forall|j: int| 0 <= j < n && #[trigger] reached@[j] ==> reachable(s, j),
            unreachable@ == indices_where(i as int, |j: int| !reachable(s, j)),
    {
        proof {
            if !reached@[i as int] {
                assert(!marked.contains(i as int));
            }
        }
        if !reached[i] {
            unreachable.push(i);
        }
    }
    Forest { roots, children, unreachable }
}


/// Children lists of every item, by index.
pub open spec fn child_lists_of(items: Seq<BacklogItem>) -> Seq<Seq<usize>> {
    Seq::new(items.len(), |p: int| children_of(items, p))
}

/// `n` unset flags.
pub open spec fn no_flags(n: int) -> Seq<bool> {
    Seq::new(n as nat, |j: int| false)
}

/// Depth-first pre-order walk from `i`: `i` (unless already emitted) followed by the walks of its
/// children in order. Returns the emitted indices and the updated emitted flags.
pub open spec fn walk(ch: Seq<Seq<usize>>, i: int, e: Seq<bool>, fuel: nat) -> (Seq<usize>, Seq<bool>)
    decreases fuel, 0int, 0int,
{
    if fuel == 0 || i < 0 || i >= e.len() || i >= ch.len() || e[i] {
        (seq![], e)
    } else {
        let rest = walk_list(ch, ch[i], 0, e.update(i, true), (fuel - 1) as nat);
        (seq![i as usize] + rest.0, rest.1)
    }
}

/// The walks from `cs[k..]` in order, each starting from the flags the previous one left.
pub open spec fn walk_list(ch: Seq<Seq<usize>>, cs: Seq<usize>, k: int, e: Seq<bool>, fuel: nat) -> (
    Seq<usize>,
    Seq<bool>,
)
    decreases fuel, 1int, cs.len() - k,
{
    if k < 0 || k >= cs.len() {
        (seq![], e)
    } else {
        let first = walk(ch, cs[k] as int, e, fuel);
        let rest = walk_list(ch, cs, k + 1, first.1, fuel);
        (first.0 + rest.0, rest.1)
    }
}

/// The members of `unr[k..]` not yet emitted, each taken once.
pub open spec fn sweep(unr: Seq<usize>, k: int, e: Seq<bool>) -> Seq<usize>
    decreases unr.len() - k,
{
    if k < 0 || k >= unr.len() {
        seq![]
    } else if 0 <= unr[k] < e.len() && e[unr[k] as int] {
        sweep(unr, k + 1, e)
    } else {
        seq![unr[k]] + sweep(unr, k + 1, if unr[k] < e.len() { e.update(unr[k] as int, true) } else { e })
    }
}

/// Pre-order traversal of the fully expanded forest of `items`: every root in input order, each
/// parent immediately followed by its subtree, then the cycle-only items in input order.
pub open spec fn hierarchical_order_of(items: Seq<BacklogItem>) -> Seq<usize> {
    let n = items.len() as int;
    let walked = walk_list(child_lists_of(items), roots_of(items), 0, no_flags(n), n as nat);
    walked.0 + sweep(unreachable_of(items), 0, walked.1)
}

/// Every listed child index is below `n`.
pub open spec fn children_in_range(ch: Seq<Seq<usize>>, n: int) -> bool {
    &&& ch.len() == n
    &&& forall|p: int, k: int| 0 <= p < n && 0 <= k < ch[p].len() ==> #[trigger] ch[p][k] < n
}

/// There are never more unset flags than flags.
pub proof fn lemma_count_unset_bound(flags: Seq<bool>)
    ensures
        count_unset(flags) <= flags.len(),
    decreases flags.len(),
{
    if flags.len() > 0 {
        lemma_count_unset_bound(flags.drop_last());
    }
}

/// The forest's children lists, as sequences, are the children of every item.
proof fn lemma_forest_children(f: Forest, items: Seq<BacklogItem>)
    requires
        f.describes(items),
        items.len() <= usize::MAX,
    ensures
        f.children@.map_values(|v: Vec<usize>| v@) == child_lists_of(items),
        children_in_range(child_lists_of(items), items.len() as int),
{
    let n = items.len() as int;
    assert(f.children@.map_values(|v: Vec<usize>| v@) =~= child_lists_of(items));
    assert forall|p: int, k: int|
        0 <= p < n && 0 <= k < child_lists_of(items)[p].len() implies #[trigger] child_lists_of(
        items,
    )[p][k] < n by {
        lemma_indices_where(n, |c: int| is_child_of(items, c, p));
    }
}

/// An unset flag means at least one unset flag.
proof fn lemma_unset_positive(flags: Seq<bool>, i: int)
    requires
        0 <= i < flags.len(),
        !flags[i],
    ensures
        count_unset(flags) >= 1,
{
    lemma_count_unset_set(flags, i);
}

/// Depth-first pre-order emit of `i` then its subtree. `emitted` breaks any (invalid) cycle
/// reached through children.
fn visit(
    i: usize,
    children: &Vec<Vec<usize>>,
    emitted: &mut Vec<bool>,
    out: &mut Vec<usize>,
    Ghost(fuel): Ghost<nat>,
)
    requires
        i < old(emitted)@.len(),
        children_in_range(children@.map_values(|v: Vec<usize>| v@), old(emitted)@.len() as int),
        fuel >= count_unset(old(emitted)@),
    ensures
        final(emitted)@.len() == old(emitted)@.len(),
        ({
            let w = walk(children@.map_values(|v: Vec<usize>| v@), i as int, old(emitted)@, fuel);
            &&& final(out)@ == old(out)@ + w.0
            &&& final(emitted)@ == w.1
        }),
        count_unset(final(emitted)@) <= count_unset(old(emitted)@),
    decreases count_unset(old(emitted)@),
{
    let ghost ch = children@.map_values(|v: Vec<usize>| v@);
    let ghost n = emitted@.len() as int;
    if emitted[i] {
        return;
    }
    let ghost e0 = emitted@;
    let ghost out0 = out@;
    proof {
        lemma_unset_positive(e0, i as int);
        lemma_count_unset_set(e0, i as int);
    }
    emitted.set(i, true);
    out.push(i);
    let ghost e1 = emitted@;
    let ghost f1 = (fuel - 1) as nat;
    let ghost cs = ch[i as int];
    assert(cs == children@[i as int]@);
    let m = children[i].len();
    for t in 0..m
        invariant
            m == cs.len(),
            cs == children@[i as int]@,
            ch == children@.map_values(|v: Vec<usize>| v@),
            children_in_range(ch, n),
            i < n,
            emitted@.len() == n,
            f1 >= count_unset(emitted@),
            count_unset(emitted@) < count_unset(e0),
            e0 == old(emitted)@,
            ({
                let all = walk_list(ch, cs, 0, e1, f1);
                let rest = walk_list(ch, cs, t as int, emitted@, f1);
                &&& out0 + seq![i] + (all.0) == out@ + rest.0
                &&& all.1 == rest.1
            }),
    {
        let c = children[i][t];
        assert(ch[i as int] == cs);
        assert(c == cs[t as int]);
        assert(c < n);
        let ghost before_out = out@;
        let ghost before_e = emitted@;
        visit(c, children, emitted, out, Ghost(f1));
        proof {
            let w = walk(ch, c as int, before_e, f1);
            let rest0 = walk_list(ch, cs, t as int, before_e, f1);
            let rest1 = walk_list(ch, cs, t + 1, emitted@, f1);
            assert(rest0.0 == w.0 + rest1.0);
            assert(out@ + rest1.0 == before_out + rest0.0);
        }
    }
    proof {
        let all = walk_list(ch, cs, 0, e1, f1);
        assert(walk(ch, i as int, e0, fuel) == (seq![i] + all.0, all.1));
        assert(out@ == out0 + (seq![i] + all.0));
    }
}


/// Pre-order traversal of the fully-expanded forest: every root in input order, each parent
/// immediately followed by its subtree (children in input order). Cycle-only items are appended
/// at the end so no item is lost.
///
/// Returns indices into `items`. Callers reorder their own collection by it.
pub fn hierarchical_order(items: &[BacklogItem]) -> (order: Vec<usize>)
    ensures
        order@ == hierarchical_order_of(items@),
{
    let forest = build_forest(items);
    let n = items.len();
    let ghost s = items@;
    let ghost ch = child_lists_of(s);
    proof {
        lemma_forest_children(forest, s);
        lemma_indices_where(n as int, |r: int| is_root(s, r));
        lemma_indices_where(n as int, |j: int| !reachable(s, j));
    }
    let mut emitted: Vec<bool> = Vec::new();
    for k in 0..n
        invariant
            emitted@ == no_flags(k as int),
    {
        emitted.push(false);
        assert(emitted@ =~= no_flags(k + 1));
    }
    let mut out: Vec<usize> = Vec::new();
    let ghost roots = roots_of(s);
    let r = forest.roots.len();
    for k in 0..r
        invariant
            n == s.len(),
            r == roots.len(),
            forest.roots@ == roots,
            roots == roots_of(s),
            forall|j: int| 0 <= j < roots.len() ==> #[trigger] roots[j] < n,
            forest.children@.map_values(|v: Vec<usize>| v@) == ch,
            ch == child_lists_of(s),
            children_in_range(ch, n as int),
            emitted@.len() == n,
            ({
                let all = walk_list(ch, roots, 0, no_flags(n as int), n as nat);
                let rest = walk_list(ch, roots, k as int, emitted@, n as nat);
                &&& all.0 == out@ + rest.0
                &&& all.1 == rest.1
            }),
    {
        let i = forest.roots[k];
        let ghost before_out = out@;
        let ghost before_e = emitted@;
        proof {
            lemma_count_unset_bound(emitted@);
        }
        visit(i, &forest.children, &mut emitted, &mut out, Ghost(n as nat));
        proof {
            let w = walk(ch, i as int, before_e, n as nat);
            let rest0 = walk_list(ch, roots, k as int, before_e, n as nat);
            let rest1 = walk_list(ch, roots, k + 1, emitted@, n as nat);
            assert(rest0.0 == w.0 + rest1.0);
            assert(before_out + rest0.0 == out@ + rest1.0);
        }
    }
    let ghost walked = walk_list(ch, roots, 0, no_flags(n as int), n as nat);
    assert(out@ == walked.0);
    let ghost unr = unreachable_of(s);
    let u = forest.unreachable.len();
    for k in 0..u
        invariant
            n == s.len(),
            u == unr.len(),
            forest.unreachable@ == unr,
            forall|j: int| 0 <= j < unr.len() ==> #[trigger] unr[j] < n,
            emitted@.len() == n,
            walked.0 + sweep(unr, 0, walked.1) == out@ + sweep(unr, k as int, emitted@),
    {
        let i = forest.unreachable[k];
        if !emitted[i] {
            emitted.set(i, true);
            out.push(i);
        }
    }
    out
}


/// Flags only get set: `e2` keeps every flag of `e`.
pub open spec fn grows(e: Seq<bool>, e2: Seq<bool>) -> bool {
    &&& e2.len() == e.len()
    &&& forall|j: int| 0 <= j < e.len() && #[trigger] e[j] ==> e2[j]
}

/// `o` lists, once each, exactly the indices whose flag `e2` sets and `e` did not.
pub open spec fn emits_new(o: Seq<usize>, e: Seq<bool>, e2: Seq<bool>) -> bool {
    &&& forall|k: int| 0 <= k < o.len() ==> #[trigger] o[k] < e.len() && !e[o[k] as int] && e2[o[k] as int]
    &&& forall|j: int| 0 <= j < e.len() && !e[j] && #[trigger] e2[j] ==> o.contains(j as usize)
    &&& forall|a: int, b: int| 0 <= a < b < o.len() ==> o[a] != o[b]
}

/// Every index newly set between `e` and `e2` has all its children set in `e2`.
pub open spec fn new_closed(ch: Seq<Seq<usize>>, e: Seq<bool>, e2: Seq<bool>) -> bool {
    forall|j: int, t: int|
        #![trigger e2[j], ch[j][t]]
        0 <= j < e.len() && !e[j] && e2[j] && 0 <= t < ch[j].len() ==> e2[ch[j][t] as int]
}

/// Setting more flags leaves no more unset flags.
proof fn lemma_count_unset_grows(e: Seq<bool>, e2: Seq<bool>)
    requires
        grows(e, e2),
    ensures
        count_unset(e2) <= count_unset(e),
    decreases e.len(),
{
    if e.len() > 0 {
        assert(grows(e.drop_last(), e2.drop_last()));
        lemma_count_unset_grows(e.drop_last(), e2.drop_last());
    }
}

proof fn lemma_walk(ch: Seq<Seq<usize>>, n: int, i: int, e: Seq<bool>, fuel: nat)
    requires
        children_in_range(ch, n),
        n <= usize::MAX,
        e.len() == n,
        0 <= i < n,
        fuel >= count_unset(e),
    ensures
        grows(e, walk(ch, i, e, fuel).1),
        emits_new(walk(ch, i, e, fuel).0, e, walk(ch, i, e, fuel).1),
        new_closed(ch, e, walk(ch, i, e, fuel).1),
        walk(ch, i, e, fuel).1[i],
    decreases fuel, 0int, 0int,
{
    if e[i] {
        return;
    }
    lemma_unset_positive(e, i);
    lemma_count_unset_set(e, i);
    let e1 = e.update(i, true);
    let cs = ch[i];
    let f1 = (fuel - 1) as nat;
    let rest = walk_list(ch, cs, 0, e1, f1);
    lemma_walk_list(ch, n, cs, 0, e1, f1);
    let w = walk(ch, i, e, fuel);
    assert(w == (seq![i as usize] + rest.0, rest.1));
    assert(e1[i]);
    assert(rest.1[i]);
    assert forall|j: int| 0 <= j < e.len() && #[trigger] e[j] implies rest.1[j] by {
        assert(e1[j]);
    }
    let o = w.0;
    assert forall|k: int| 0 <= k < o.len() implies #[trigger] o[k] < e.len() && !e[o[k] as int]
        && w.1[o[k] as int] by {
        if k > 0 {
            assert(o[k] == rest.0[k - 1]);
        }
    }
    assert forall|j: int| 0 <= j < e.len() && !e[j] && #[trigger] w.1[j] implies o.contains(
        j as usize,
    ) by {
        if j == i {
            assert(o[0] == i as usize);
        } else {
            assert(!e1[j]);
            assert(rest.0.contains(j as usize));
            let k = choose|k: int| 0 <= k < rest.0.len() && rest.0[k] == j as usize;
            assert(o[k + 1] == rest.0[k]);
        }
    }
    assert forall|a: int, b: int| 0 <= a < b < o.len() implies o[a] != o[b] by {
        assert(o[b] == rest.0[b - 1]);
        if a > 0 {
            assert(o[a] == rest.0[a - 1]);
        } else {
            assert(!e1[rest.0[b - 1] as int]);
        }
    }
    assert forall|j: int, t: int|
        #![trigger w.1[j], ch[j][t]]
        0 <= j < e.len() && !e[j] && w.1[j] && 0 <= t < ch[j].len() implies w.1[ch[j][t] as int] by {
        if j != i {
            assert(!e1[j]);
        }
    }
}

proof fn lemma_walk_list(ch: Seq<Seq<usize>>, n: int, cs: Seq<usize>, k: int, e: Seq<bool>, fuel: nat)
    requires
        children_in_range(ch, n),
        n <= usize::MAX,
        e.len() == n,
        0 <= k,
        forall|t: int| 0 <= t < cs.len() ==> #[trigger] cs[t] < n,
        fuel >= count_unset(e),
    ensures
        grows(e, walk_list(ch, cs, k, e, fuel).1),
        emits_new(walk_list(ch, cs, k, e, fuel).0, e, walk_list(ch, cs, k, e, fuel).1),
        new_closed(ch, e, walk_list(ch, cs, k, e, fuel).1),
        forall|t: int| k <= t < cs.len() ==> walk_list(ch, cs, k, e, fuel).1[#[trigger] cs[t] as int],
    decreases fuel, 1int, cs.len() - k,
{
    if k >= cs.len() {
        return;
    }
    let first = walk(ch, cs[k] as int, e, fuel);
    lemma_walk(ch, n, cs[k] as int, e, fuel);
    lemma_count_unset_grows(e, first.1);
    let rest = walk_list(ch, cs, k + 1, first.1, fuel);
    lemma_walk_list(ch, n, cs, k + 1, first.1, fuel);
    let w = walk_list(ch, cs, k, e, fuel);
    assert(w == (first.0 + rest.0, rest.1));
    let o = w.0;
    assert forall|x: int| 0 <= x < o.len() implies #[trigger] o[x] < e.len() && !e[o[x] as int]
        && w.1[o[x] as int] by {
        if x < first.0.len() {
            assert(o[x] == first.0[x]);
        } else {
            assert(o[x] == rest.0[x - first.0.len()]);
        }
    }
    assert forall|j: int| 0 <= j < e.len() && !e[j] && #[trigger] w.1[j] implies o.contains(
        j as usize,
    ) by {
        if first.1[j] {
            let x = choose|x: int| 0 <= x < first.0.len() && first.0[x] == j as usize;
            assert(o[x] == first.0[x]);
        } else {
            let x = choose|x: int| 0 <= x < rest.0.len() && rest.0[x] == j as usize;
            assert(o[first.0.len() + x] == rest.0[x]);
        }
    }
    assert forall|a: int, b: int| 0 <= a < b < o.len() implies o[a] != o[b] by {
        if b < first.0.len() {
            assert(o[a] == first.0[a] && o[b] == first.0[b]);
        } else if a >= first.0.len() {
            assert(o[a] == rest.0[a - first.0.len()] && o[b] == rest.0[b - first.0.len()]);
        } else {
            assert(o[a] == first.0[a] && o[b] == rest.0[b - first.0.len()]);
            assert(first.1[o[a] as int]);
            assert(!first.1[o[b] as int]);
        }
    }
    assert forall|j: int, t: int|
        #![trigger w.1[j], ch[j][t]]
        0 <= j < e.len() && !e[j] && w.1[j] && 0 <= t < ch[j].len() implies w.1[ch[j][t] as int] by {
        if first.1[j] {
            assert(first.1[ch[j][t] as int]);
        }
    }
    assert forall|t: int| k <= t < cs.len() implies w.1[#[trigger] cs[t] as int] by {
        if t == k {
            assert(first.1[cs[k] as int]);
        }
    }
}

proof fn lemma_sweep(unr: Seq<usize>, k: int, e: Seq<bool>)
    requires
        0 <= k,
        forall|t: int| 0 <= t < unr.len() ==> #[trigger] unr[t] < e.len(),
        forall|a: int, b: int| 0 <= a < b < unr.len() ==> unr[a] < unr[b],
    ensures
        forall|x: int| 0 <= x < sweep(unr, k, e).len() ==> {
            let v = #[trigger] sweep(unr, k, e)[x];
            v < e.len() && !e[v as int] && unr.subrange(k, unr.len() as int).contains(v)
        },
        forall|a: int, b: int|
            0 <= a < b < sweep(unr, k, e).len() ==> sweep(unr, k, e)[a] != sweep(unr, k, e)[b],
        forall|t: int| k <= t < unr.len() && !e[#[trigger] unr[t] as int] ==> sweep(unr, k, e).contains(unr[t]),
    decreases unr.len() - k,
{
    if k >= unr.len() {
        return;
    }
    let v = unr[k];
    let sub = unr.subrange(k, unr.len() as int);
    let sub1 = unr.subrange(k + 1, unr.len() as int);
    if e[v as int] {
        lemma_sweep(unr, k + 1, e);
        let r = sweep(unr, k + 1, e);
        assert forall|x: int| 0 <= x < r.len() implies sub.contains(#[trigger] r[x]) by {
            let y = choose|y: int| 0 <= y < sub1.len() && sub1[y] == r[x];
            assert(sub[y + 1] == sub1[y]);
        }
    } else {
        let e1 = e.update(v as int, true);
        lemma_sweep(unr, k + 1, e1);
        let r = sweep(unr, k + 1, e1);
        let o = sweep(unr, k, e);
        assert(o == seq![v] + r);
        assert forall|x: int| 0 <= x < o.len() implies {
            let w = #[trigger] o[x];
            w < e.len() && !e[w as int] && sub.contains(w)
        } by {
            if x == 0 {
                assert(sub[0] == v);
            } else {
                assert(o[x] == r[x - 1]);
                let y = choose|y: int| 0 <= y < sub1.len() && sub1[y] == r[x - 1];
                assert(sub[y + 1] == sub1[y]);
            }
        }
        assert forall|a: int, b: int| 0 <= a < b < o.len() implies o[a] != o[b] by {
            assert(o[b] == r[b - 1]);
            if a > 0 {
                assert(o[a] == r[a - 1]);
            } else {
                assert(!e1[r[b - 1] as int]);
            }
        }
        assert forall|t: int| k <= t < unr.len() && !e[#[trigger] unr[t] as int] implies o.contains(
            unr[t],
        ) by {
            if t == k {
                assert(o[0] == v);
            } else {
                assert(unr[k] < unr[t]);
                assert(!e1[unr[t] as int]);
                let y = choose|y: int| 0 <= y < r.len() && r[y] == unr[t];
                assert(o[y + 1] == r[y]);
            }
        }
    }
}

/// The hierarchical order lists every item exactly once: no item is dropped (cycle-only items
/// included) and none is repeated.
pub proof fn lemma_hierarchical_order_is_permutation(items: Seq<BacklogItem>)
    requires
        items.len() <= usize::MAX,
    ensures
        forall|k: int|
            0 <= k < hierarchical_order_of(items).len() ==> #[trigger] hierarchical_order_of(
                items,
            )[k] < items.len(),
        forall|a: int, b: int|
            0 <= a < b < hierarchical_order_of(items).len() ==> hierarchical_order_of(items)[a]
                != hierarchical_order_of(items)[b],
        forall|j: int| 0 <= j < items.len() ==> #[trigger] hierarchical_order_of(items).contains(j as usize),
        hierarchical_order_of(items).len() == items.len(),
{
    let n = items.len() as int;
    let ch = child_lists_of(items);
    let roots = roots_of(items);
    let e0 = no_flags(n);
    let unr = unreachable_of(items);
    assert forall|p: int, k: int| 0 <= p < n && 0 <= k < ch[p].len() implies #[trigger] ch[p][k] < n by {
        lemma_indices_where(n, |c: int| is_child_of(items, c, p));
    }
    lemma_indices_where(n, |r: int| is_root(items, r));
    lemma_indices_where(n, |j: int| !reachable(items, j));
    lemma_count_unset_bound(e0);
    lemma_walk_list(ch, n, roots, 0, e0, n as nat);
    let walked = walk_list(ch, roots, 0, e0, n as nat);
    let e = walked.1;
    lemma_sweep(unr, 0, e);
    let sw = sweep(unr, 0, e);
    let o = hierarchical_order_of(items);
    assert(o == walked.0 + sw);
    assert(unr.subrange(0, unr.len() as int) == unr);
    // The set flags are closed under children and hold every root.
    let marked = Set::new(|j: int| 0 <= j < n && e[j]);
    assert forall|r: int| 0 <= r < n && is_root(items, r) implies #[trigger] marked.contains(r) by {
        assert(roots.contains(r as usize));
        let t = choose|t: int| 0 <= t < roots.len() && roots[t] == r as usize;
        assert(e[roots[t] as int]);
    }
    assert forall|p: int, c: int|
        #![trigger marked.contains(p), is_child_of(items, c, p)]
        marked.contains(p) && 0 <= c < n && is_child_of(items, c, p) implies marked.contains(c) by {
        lemma_indices_where(n, |cc: int| is_child_of(items, cc, p));
        assert(ch[p].contains(c as usize));
        let t = choose|t: int| 0 <= t < ch[p].len() && ch[p][t] == c as usize;
        assert(!e0[p]);
        assert(e[ch[p][t] as int]);
    }
    assert(closed_under_children(items, marked));
    assert forall|k: int| 0 <= k < o.len() implies #[trigger] o[k] < n by {
        if k >= walked.0.len() {
            assert(o[k] == sw[k - walked.0.len()]);
        }
    }
    assert forall|a: int, b: int| 0 <= a < b < o.len() implies o[a] != o[b] by {
        if b < walked.0.len() {
            assert(o[a] == walked.0[a] && o[b] == walked.0[b]);
        } else if a >= walked.0.len() {
            assert(o[a] == sw[a - walked.0.len()] && o[b] == sw[b - walked.0.len()]);
        } else {
            assert(o[a] == walked.0[a] && o[b] == sw[b - walked.0.len()]);
        }
    }
    assert forall|j: int| 0 <= j < n implies #[trigger] o.contains(j as usize) by {
        if e[j] {
            let x = choose|x: int| 0 <= x < walked.0.len() && walked.0[x] == j as usize;
            assert(o[x] == walked.0[x]);
        } else {
            assert(!marked.contains(j));
            assert(!reachable(items, j));
            assert(unr.contains(j as usize));
            let t = choose|t: int| 0 <= t < unr.len() && unr[t] == j as usize;
            assert(sw.contains(unr[t]));
            let x = choose|x: int| 0 <= x < sw.len() && sw[x] == j as usize;
            assert(o[walked.0.len() + x] == sw[x]);
        }
    }
    // A duplicate-free list of indices below n that holds all of them has length n.
    lemma_distinct_cover_len(o, n);
}

/// A duplicate-free sequence of indices below `n` that contains every index below `n` has length
/// `n`.
proof fn lemma_distinct_cover_len(o: Seq<usize>, n: int)
    requires
        0 <= n <= usize::MAX,
        forall|k: int| 0 <= k < o.len() ==> #[trigger] o[k] < n,
        forall|a: int, b: int| 0 <= a < b < o.len() ==> o[a] != o[b],
        forall|j: int| 0 <= j < n ==> #[trigger] o.contains(j as usize),
    ensures
        o.len() == n,
{
    let oi = o.map_values(|x: usize| x as int);
    assert(oi.no_duplicates()) by {
        assert forall|a: int, b: int| 0 <= a < oi.len() && 0 <= b < oi.len() && a != b implies oi[a]
            != oi[b] by {
            if a < b {
                assert(o[a] != o[b]);
            } else {
                assert(o[b] != o[a]);
            }
        }
    }
    oi.unique_seq_to_set();
    vstd::set_lib::lemma_int_range(0, n);
    assert(oi.to_set() =~= vstd::set_lib::set_int_range(0, n)) by {
        assert forall|j: int| #[trigger] oi.to_set().contains(j) implies 0 <= j < n by {
            let k = choose|k: int| 0 <= k < oi.len() && oi[k] == j;
            assert(o[k] < n);
        }
        assert forall|j: int| 0 <= j < n implies #[trigger] oi.to_set().contains(j) by {
            assert(o.contains(j as usize));
            let k = choose|k: int| 0 <= k < o.len() && o[k] == j as usize;
            assert(oi[k] == j);
        }
    }
}


/// The items in hierarchical priority order.
pub open spec fn hierarchical_view(items: Seq<BacklogItem>) -> Seq<BacklogItem> {
    Seq::new(items.len(), |k: int| items[hierarchical_order_of(items)[k] as int])
}

/// Two lists hold the same items, position by position.
pub open spec fn same_items(a: Seq<BacklogItem>, b: Seq<BacklogItem>) -> bool {
    &&& a.len() == b.len()
    &&& forall|k: int| 0 <= k < a.len() ==> (#[trigger] a[k]).same_as(b[k])
}

/// The first `n` items of `s`, or all of them when there are fewer.
pub open spec fn first_n(s: Seq<BacklogItem>, n: int) -> Seq<BacklogItem> {
    if n < s.len() {
        s.take(n)
    } else {
        s
    }
}

/// Reorder `items` into canonical hierarchical priority order.
///
/// `items` should already be in canonical backlog order so roots and siblings come out
/// rank-ordered.
pub fn hierarchical(items: Vec<BacklogItem>) -> (r: Vec<BacklogItem>)
    ensures
        same_items(r@, hierarchical_view(items@)),
{
    let order = hierarchical_order(items.as_slice());
    assert(items@.len() == items.len());
    proof {
        lemma_hierarchical_order_is_permutation(items@);
    }
    let mut out: Vec<BacklogItem> = Vec::new();
    let m = order.len();
    for k in 0..m
        invariant
            m == order@.len(),
            order@ == hierarchical_order_of(items@),
            forall|j: int| 0 <= j < m ==> #[trigger] order@[j] < items@.len(),
            out@.len() == k,
            forall|j: int| 0 <= j < k ==> (#[trigger] out@[j]).same_as(items@[order@[j] as int]),
    {
        out.push(items[order[k]].copy());
    }
    assert(same_items(out@, hierarchical_view(items@)));
    out
}


/// Two lists with the same IDs and parent links, position by position.
pub open spec fn same_shape(a: Seq<BacklogItem>, b: Seq<BacklogItem>) -> bool {
    &&& a.len() == b.len()
    &&& forall|k: int|
        0 <= k < a.len() ==> #[trigger] a[k].id@ == b[k].id@ && opt_id(a[k].parent) == opt_id(
            b[k].parent,
        )
}

proof fn lemma_indices_where_ext(n: int, f: spec_fn(int) -> bool, g: spec_fn(int) -> bool)
    requires
        forall|i: int| 0 <= i < n ==> #[trigger] f(i) == g(i),
    ensures
        indices_where(n, f) == indices_where(n, g),
    decreases n,
{
    if n > 0 {
        lemma_indices_where_ext(n - 1, f, g);
    }
}

/// The hierarchical order depends only on the items' IDs and parent links.
pub proof fn lemma_order_depends_on_shape(a: Seq<BacklogItem>, b: Seq<BacklogItem>)
    requires
        same_shape(a, b),
    ensures
        hierarchical_order_of(a) == hierarchical_order_of(b),
{
    let n = a.len() as int;
    assert(item_ids(a) =~= item_ids(b));
    assert forall|i: int| 0 <= i < n implies parent_slot(a, i) == parent_slot(b, i) by {
        assert(a[i].id@ == b[i].id@);
        assert(opt_id(a[i].parent) == opt_id(b[i].parent));
    }
    lemma_indices_where_ext(n, |i: int| is_root(a, i), |i: int| is_root(b, i));
    assert(roots_of(a) == roots_of(b));
    assert forall|p: int| 0 <= p < n implies children_of(a, p) == children_of(b, p) by {
        lemma_indices_where_ext(n, |c: int| is_child_of(a, c, p), |c: int| is_child_of(b, c, p));
    }
    assert(child_lists_of(a) =~= child_lists_of(b));
    assert forall|st: Set<int>| closed_under_children(a, st) == closed_under_children(b, st) by {
        if closed_under_children(a, st) {
            assert forall|p: int, c: int|
                #![trigger st.contains(p), is_child_of(b, c, p)]
                st.contains(p) && 0 <= c < n && is_child_of(b, c, p) implies st.contains(c) by {
                assert(is_child_of(a, c, p));
            }
        }
        if closed_under_children(b, st) {
            assert forall|p: int, c: int|
                #![trigger st.contains(p), is_child_of(a, c, p)]
                st.contains(p) && 0 <= c < n && is_child_of(a, c, p) implies st.contains(c) by {
                assert(is_child_of(b, c, p));
            }
        }
    }
    assert forall|i: int| 0 <= i < n implies reachable(a, i) == reachable(b, i) by {
        if reachable(a, i) {
            assert forall|st: Set<int>| #[trigger] closed_under_children(b, st) implies st.contains(i) by {
                assert(closed_under_children(a, st));
            }
        }
        if reachable(b, i) {
            assert forall|st: Set<int>| #[trigger] closed_under_children(a, st) implies st.contains(i) by {
                assert(closed_under_children(b, st));
            }
        }
    }
    lemma_indices_where_ext(n, |i: int| !reachable(a, i), |i: int| !reachable(b, i));
    assert(unreachable_of(a) == unreachable_of(b));
}

} // verus!
