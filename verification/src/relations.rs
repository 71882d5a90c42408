//! Shared validation for PBI relationships: parent links and dependencies.
use crate::backlog::{contains_id, has_id, ids_view, item_ids, opt_id, BacklogItem, IdView, ItemId};
use crate::error::Error;
use crate::index::{last_index_of, lemma_last_index_of, IdIndex};
use crate::order::count_unset;
use vstd::prelude::*;

verus! {

/// Following parent links upward from `from` reaches `target` within `fuel` steps (the item for an
/// ID is the last one with that ID).
pub open spec fn climbs_to(items: Seq<BacklogItem>, from: IdView, target: IdView, fuel: nat) -> bool
    decreases fuel,
{
    if from == target {
        true
    } else if fuel == 0 {
        false
    } else {
        match last_index_of(item_ids(items), from) {
            Some(j) => match opt_id(items[j].parent) {
                Some(p) => climbs_to(items, p, target, (fuel - 1) as nat),
                None => false,
            },
            None => false,
        }
    }
}

/// Making `parent` the parent of `child` closes a cycle: `child` is `parent` itself or one of its
/// ancestors.
pub open spec fn parent_cycle(items: Seq<BacklogItem>, child: IdView, parent: IdView) -> bool {
    climbs_to(items, parent, child, items.len())
}

/// Whether setting `parent` as the parent of `child` would create a parent cycle.
pub fn parent_creates_cycle(items: &[BacklogItem], child: &ItemId, parent: &ItemId) -> (r: bool)
    ensures
        r == parent_cycle(items@, child@, parent@),
{
    let n = items.len();
    let index = IdIndex::build(items);
    let mut cur = parent.copy();
    for step in 0..n
        invariant
            n == items@.len(),
            index.indexes(item_ids(items@)),
            climbs_to(items@, parent@, child@, n as nat) == climbs_to(
                items@,
                cur@,
                child@,
                (n - step) as nat,
            ),
    {
        if cur.same(child) {
            return true;
        }
        let slot = index.lookup(&cur, Ghost(item_ids(items@)));
        proof {
            lemma_last_index_of(item_ids(items@), cur@);
        }
        match slot {
            None => {
                return false;
            },
            Some(j) => match &items[j].parent {
                None => {
                    return false;
                },
                Some(p) => {
                    cur = p.copy();
                },
            },
        }
    }
    cur.same(child)
}

/// A set of IDs that holds the dependencies of every item whose ID it holds.
pub open spec fn dependency_closed(items: Seq<BacklogItem>, s: Set<IdView>) -> bool {
    forall|x: IdView|
        #[trigger] s.contains(x) ==> match last_index_of(item_ids(items), x) {
            Some(j) => forall|d: int|
                0 <= d < items[j].depends_on@.len() ==> s.contains(#[trigger] items[j].depends_on@[d]@),
            None => true,
        }
}

/// `target` is reachable from `from` through dependency edges (possibly in zero steps).
pub open spec fn depends_transitively(items: Seq<BacklogItem>, from: IdView, target: IdView) -> bool {
    forall|s: Set<IdView>| s.contains(from) && #[trigger] dependency_closed(items, s) ==> s.contains(target)
}

/// Whether adding the edge `item → dependency` would close a dependency cycle, that is, whether
/// `item` is reachable from `dependency` (a self-dependency included).
pub fn dependency_creates_cycle(items: &[BacklogItem], item: &ItemId, dependency: &ItemId) -> (r: bool)
    ensures
        r == depends_transitively(items@, dependency@, item@),
{
    let n = items.len();
    let ghost s = items@;
    let ghost ids = item_ids(s);
    let index = IdIndex::build(items);
    let mut visited: Vec<bool> = Vec::new();
    for k in 0..n
        invariant
            visited@.len() == k,
            forall|j: int| 0 <= j < k ==> !#[trigger] visited@[j],
    {
        visited.push(false);
    }
    let mut stack: Vec<ItemId> = Vec::new();
    stack.push(dependency.copy());
    let ghost mut pushed: Set<IdView> = set![dependency@];
    let ghost mut popped: Set<IdView> = Set::empty();
    assert(stack@[0]@ == dependency@);
    assert forall|x: IdView| #[trigger] pushed.contains(x) implies depends_transitively(s, dependency@, x) by {
        assert(x == dependency@);
    }
    while stack.len() > 0
        invariant
            n == s.len(),
            s == items@,
            ids == item_ids(s),
            index.indexes(ids),
            visited@.len() == n,
            pushed.contains(dependency@),
            forall|x: IdView| #[trigger] pushed.contains(x) ==> depends_transitively(s, dependency@, x),
            forall|k: int| 0 <= k < stack@.len() ==> pushed.contains(#[trigger] stack@[k]@),
            forall|x: IdView| #[trigger] pushed.contains(x) ==> popped.contains(x) || exists|k: int|
                0 <= k < stack@.len() && #[trigger] stack@[k]@ == x,
            !popped.contains(item@),
            forall|x: IdView| #[trigger] popped.contains(x) ==> pushed.contains(x) && match last_index_of(ids, x) {
                Some(j) => visited@[j] && forall|d: int|
                    0 <= d < s[j].depends_on@.len() ==> pushed.contains(#[trigger] s[j].depends_on@[d]@),
                None => true,
            },
            forall|j: int| 0 <= j < n && #[trigger] visited@[j] ==> forall|d: int|
                0 <= d < s[j].depends_on@.len() ==> pushed.contains(#[trigger] s[j].depends_on@[d]@),
        decreases count_unset(visited@), stack@.len(),
    {
        let ghost full = stack@;
        let cur = stack.pop().unwrap();
        assert(full =~= stack@.push(cur));
        assert(pushed.contains(cur@)) by {
            assert(full[full.len() - 1] == cur);
        }
        if cur.same(item) {
            return true;
        }
        let slot = index.lookup(&cur, Ghost(ids));
        proof {
            lemma_last_index_of(ids, cur@);
        }
        let ghost before_popped = popped;
        proof {
            popped = popped.insert(cur@);
        }
        match slot {
            None => {
                assert forall|x: IdView| #[trigger] pushed.contains(x) implies popped.contains(x) || exists|k: int|
                    0 <= k < stack@.len() && #[trigger] stack@[k]@ == x by {
                    if !popped.contains(x) {
                        let k = choose|k: int| 0 <= k < full.len() && #[trigger] full[k]@ == x;
                        if k < stack@.len() {
                            assert(stack@[k] == full[k]);
                        }
                    }
                }
            },
            Some(j) => {
                if visited[j] {
                    assert forall|x: IdView| #[trigger] pushed.contains(x) implies popped.contains(x) || exists|k: int|
                        0 <= k < stack@.len() && #[trigger] stack@[k]@ == x by {
                        if !popped.contains(x) {
                            let k = choose|k: int| 0 <= k < full.len() && #[trigger] full[k]@ == x;
                            if k < stack@.len() {
                                assert(stack@[k] == full[k]);
                            }
                        }
                    }
                } else {
                    let ghost before_visited = visited@;
                    visited.set(j, true);
                    proof {
                        crate::order::lemma_count_unset_set(before_visited, j as int);
                    }
                    let ghost st0 = stack@;
                    let ghost pushed0 = pushed;
                    let m = items[j].depends_on.len();
                    for t in 0..m
                        invariant
                            m == s[j as int].depends_on@.len(),
                            s == items@,
                            j < n,
                            n == s.len(),
                            stack@.len() == st0.len() + t,
                            forall|k: int| 0 <= k < st0.len() ==> #[trigger] stack@[k] == st0[k],
                            forall|k: int| 0 <= k < t ==> #[trigger] stack@[st0.len() + k]@ == s[j as int].depends_on@[k]@,
                            pushed == pushed0.union(Set::new(|x: IdView| exists|k: int| 0 <= k < t && s[j as int].depends_on@[k]@ == x)),
                    {
                        stack.push(items[j].depends_on[t].copy());
                        proof {
                            pushed = pushed.insert(s[j as int].depends_on@[t as int]@);
                            assert(pushed =~= pushed0.union(Set::new(|x: IdView| exists|k: int| 0 <= k < t + 1 && s[j as int].depends_on@[k]@ == x)));
                        }
                    }
                    proof {
                        assert forall|d: int| 0 <= d < s[j as int].depends_on@.len() implies pushed.contains(#[trigger] s[j as int].depends_on@[d]@) by {
                            assert(stack@[st0.len() + d]@ == s[j as int].depends_on@[d]@);
                        }
                        assert(depends_transitively(s, dependency@, cur@));
                        assert forall|x: IdView| #[trigger] pushed.contains(x) implies depends_transitively(s, dependency@, x) by {
                            if !pushed0.contains(x) {
                                let k = choose|k: int| 0 <= k < m && s[j as int].depends_on@[k]@ == x;
                                assert forall|st: Set<IdView>| st.contains(dependency@) && #[trigger] dependency_closed(s, st) implies st.contains(x) by {
                                    assert(st.contains(cur@));
                                    assert(s[j as int].depends_on@[k]@ == x);
                                }
                            }
                        }
                        assert forall|k: int| 0 <= k < stack@.len() implies pushed.contains(#[trigger] stack@[k]@) by {
                            if k < st0.len() {
                                assert(stack@[k] == st0[k]);
                                assert(full[k] == st0[k]);
                            } else {
                                assert(stack@[st0.len() + (k - st0.len())]@ == s[j as int].depends_on@[k - st0.len()]@);
                            }
                        }
                        assert forall|x: IdView| #[trigger] pushed.contains(x) implies popped.contains(x) || exists|k: int|
                            0 <= k < stack@.len() && #[trigger] stack@[k]@ == x by {
                            if !popped.contains(x) {
                                if pushed0.contains(x) {
                                    let k = choose|k: int| 0 <= k < full.len() && #[trigger] full[k]@ == x;
                                    if k < st0.len() {
                                        assert(stack@[k] == full[k]);
                                    }
                                } else {
                                    let k = choose|k: int| 0 <= k < m && s[j as int].depends_on@[k]@ == x;
                                    assert(stack@[st0.len() + k]@ == x);
                                }
                            }
                        }
                        assert forall|jj: int| 0 <= jj < n && #[trigger] visited@[jj] implies forall|d: int|
                            0 <= d < s[jj].depends_on@.len() ==> pushed.contains(#[trigger] s[jj].depends_on@[d]@) by {
                            if jj != j {
                                assert(before_visited[jj]);
                            }
                        }
                    }
                }
            },
        }
        proof {
            assert forall|x: IdView| #[trigger] popped.contains(x) implies pushed.contains(x) && match last_index_of(ids, x) {
                Some(jj) => visited@[jj] && forall|d: int|
                    0 <= d < s[jj].depends_on@.len() ==> pushed.contains(#[trigger] s[jj].depends_on@[d]@),
                None => true,
            } by {
                if x != cur@ {
                    assert(before_popped.contains(x));
                    lemma_last_index_of(ids, x);
                }
            }
        }
    }
    proof {
        assert(dependency_closed(s, popped)) by {
            assert forall|x: IdView| #[trigger] popped.contains(x) implies match last_index_of(item_ids(s), x) {
                Some(j) => forall|d: int|
                    0 <= d < s[j].depends_on@.len() ==> popped.contains(#[trigger] s[j].depends_on@[d]@),
                None => true,
            } by {
                lemma_last_index_of(ids, x);
                match last_index_of(ids, x) {
                    Some(j) => {
                        assert forall|d: int| 0 <= d < s[j].depends_on@.len() implies popped.contains(#[trigger] s[j].depends_on@[d]@) by {
                            let y = s[j].depends_on@[d]@;
                            assert(pushed.contains(y));
                        }
                    },
                    None => {},
                }
            }
        }
        assert(popped.contains(dependency@));
    }
    false
}

/// Validate a parent assignment against the current board graph.
///
/// Fails with [`Error::ParentCycle`] when the assignment closes a parent cycle, otherwise with
/// [`Error::NotFound`] when the parent is not on the board.
pub fn validate_parent(items: &[BacklogItem], child: &ItemId, parent: &ItemId) -> (r: Result<(), Error>)
    ensures
        parent_cycle(items@, child@, parent@) ==> (r matches Err(Error::ParentCycle { child: c, parent: p }) && c@ == child@ && p@ == parent@),
        !parent_cycle(items@, child@, parent@) && !has_id(items@, parent@) ==> (r matches Err(Error::NotFound(p)) && p@ == parent@),
        !parent_cycle(items@, child@, parent@) && has_id(items@, parent@) ==> r.is_ok(),
{
    if parent_creates_cycle(items, child, parent) {
        return Err(Error::ParentCycle { child: child.copy(), parent: parent.copy() });
    }
    if !contains_id(items, parent) {
        return Err(Error::NotFound(parent.copy()));
    }
    Ok(())
}

/// Validate dependency targets and report whether any new edge would close a cycle.
///
/// A self-dependency is a valid target (it is a warning-only cycle). Fails with
/// [`Error::NotFound`] for the first dependency that is neither the item nor on the board.
pub fn validate_dependencies(items: &[BacklogItem], item: &ItemId, dependencies: &[ItemId]) -> (r:
    Result<bool, Error>)
    ensures
        ({
            let deps = ids_view(dependencies@);
            match r {
                Ok(warn) => (forall|k: int|
                    0 <= k < deps.len() ==> #[trigger] deps[k] == item@ || has_id(items@, deps[k]))
                    && warn == exists|k: int|
                    0 <= k < deps.len() && depends_transitively(items@, #[trigger] deps[k], item@),
                Err(e) => exists|k: int|
                    0 <= k < deps.len() && deps[k] != item@ && !has_id(items@, #[trigger] deps[k])
                        && (forall|m: int|
                        0 <= m < k ==> #[trigger] deps[m] == item@ || has_id(items@, deps[m]))
                        && (e matches Error::NotFound(x) && x@ == deps[k]),
            }
        }),
{
    let ghost deps = ids_view(dependencies@);
    let mut cycle_warning = false;
    let m = dependencies.len();
    for k in 0..m
        invariant
            m == dependencies@.len(),
            deps == ids_view(dependencies@),
            forall|j: int| 0 <= j < k ==> #[trigger] deps[j] == item@ || has_id(items@, deps[j]),
            cycle_warning == exists|j: int|
                0 <= j < k && depends_transitively(items@, #[trigger] deps[j], item@),
    {
        let dependency = &dependencies[k];
        assert(deps[k as int] == dependency@);
        if !dependency.same(item) && !contains_id(items, dependency) {
            return Err(Error::NotFound(dependency.copy()));
        }
        let c = dependency_creates_cycle(items, item, dependency);
        cycle_warning = cycle_warning || c;
        assert(cycle_warning == exists|j: int|
            0 <= j < k + 1 && depends_transitively(items@, #[trigger] deps[j], item@)) by {
            if c {
                assert(depends_transitively(items@, deps[k as int], item@));
            }
        }
    }
    Ok(cycle_warning)
}

} // verus!
