//! Directed graphs over named nodes, given as adjacency lists, and the search for their cycles.
//!
//! A graph is a list of `(node, targets)` entries; a node's out-edges are the targets of every
//! entry that names it. Nodes are visited in name order by a depth-first search that keeps its
//! path on the heap, so a chain of any depth is searched without deep recursion.
use crate::sorted::{
    dedup_sorted, find_sorted, insert_list, is_sorted, is_strictly_sorted, key, lemma_key_injective,
    lemma_lex_antisym, lemma_lex_refl, lists_strictly_ordered, sort_strings, str_leq, views,
};
use vstd::prelude::*;

verus! {

/// A graph: each entry lists the targets of one node.
pub type Edges = Vec<(String, Vec<String>)>;

/// There is an edge from `a` to `b`.
pub open spec fn has_edge(g: Seq<(String, Vec<String>)>, a: Seq<char>, b: Seq<char>) -> bool {
    exists|i: int, j: int|
        #![trigger g[i].1@[j]]
        0 <= i < g.len() && 0 <= j < g[i].1@.len() && g[i].0@ == a && g[i].1@[j]@ == b
}

/// The position after `k` on a closed walk of length `n`.
pub open spec fn next_on(k: int, n: int) -> int {
    if k + 1 < n {
        k + 1
    } else {
        0
    }
}

/// `w` is a non-empty closed walk: each node has an edge to the next, and the last to the first.
pub open spec fn is_closed_walk(g: Seq<(String, Vec<String>)>, w: Seq<Seq<char>>) -> bool {
    &&& w.len() > 0
    &&& forall|k: int| 0 <= k < w.len() ==> has_edge(g, #[trigger] w[k], w[next_on(k, w.len() as int)])
}

/// The graph has a cycle.
pub open spec fn has_cycle(g: Seq<(String, Vec<String>)>) -> bool {
    exists|w: Seq<Seq<char>>| is_closed_walk(g, w)
}

/// `c` lists, in string order, the nodes of one cycle of the graph, each once.
pub open spec fn is_cycle_of(g: Seq<(String, Vec<String>)>, c: Seq<String>) -> bool {
    &&& is_strictly_sorted(c)
    &&& exists|w: Seq<Seq<char>>|
        is_closed_walk(g, w) && w.no_duplicates() && #[trigger] w.to_set() == views(c).to_set()
}

/// An edge between node positions.
pub open spec fn index_edge(adj: Seq<Vec<usize>>, u: int, v: int) -> bool {
    exists|j: int| 0 <= j < adj[u]@.len() && #[trigger] adj[u]@[j] == v
}

/// `names` lists every node once, in string order, and `adj` gives the out-edges of each by position.
pub open spec fn indexes(names: Seq<String>, adj: Seq<Vec<usize>>, g: Seq<(String, Vec<String>)>) -> bool {
    &&& is_strictly_sorted(names)
    &&& adj.len() == names.len()
    &&& forall|u: int, j: int|
        0 <= u < adj.len() && 0 <= j < adj[u]@.len() ==> #[trigger] adj[u]@[j] < names.len()
    &&& forall|u: int, v: int|
        0 <= u < names.len() && 0 <= v < names.len() ==> (#[trigger] index_edge(adj, u, v)
            <==> has_edge(g, names[u]@, names[v]@))
    &&& forall|a: Seq<char>, b: Seq<char>|
        #[trigger] has_edge(g, a, b) ==> views(names).contains(a) && views(names).contains(b)
}

/// `x` names a node of the graph: an entry's node or one of its targets.
pub open spec fn is_node(g: Seq<(String, Vec<String>)>, x: Seq<char>) -> bool {
    ||| exists|i: int| 0 <= i < g.len() && (#[trigger] g[i]).0@ == x
    ||| exists|i: int, j: int| 0 <= i < g.len() && 0 <= j < g[i].1@.len() && (#[trigger] g[i].1@[j])@ == x
}

/// The position of node name `x` in `names`.
pub open spec fn pos(names: Seq<String>, x: Seq<char>) -> int {
    choose|k: int| 0 <= k < names.len() && names[k]@ == x
}

/// In a list without repeats, a listed name's position is where it stands.
proof fn lemma_pos(names: Seq<String>, k: int)
    requires
        is_strictly_sorted(names),
        0 <= k < names.len(),
    ensures
        pos(names, names[k]@) == k,
{
    let p = pos(names, names[k]@);
    assert(0 <= p < names.len() && names[p]@ == names[k]@);
    if p != k {
        if p < k {
            assert(names[p]@ != names[k]@);
        } else {
            assert(names[k]@ != names[p]@);
        }
    }
}

/// A contained name has a position.
proof fn lemma_pos_contains(names: Seq<String>, x: Seq<char>)
    requires
        views(names).contains(x),
    ensures
        0 <= pos(names, x) < names.len(),
        names[pos(names, x)]@ == x,
{
    let k = choose|k: int| 0 <= k < views(names).len() && views(names)[k] == x;
    assert(names[k]@ == x);
}

pub proof fn lemma_multiset_views_contains(s1: Seq<String>, s2: Seq<String>, x: Seq<char>)
    requires
        s1.to_multiset() == s2.to_multiset(),
        views(s1).contains(x),
    ensures
        views(s2).contains(x),
{
    s1.to_multiset_ensures();
    s2.to_multiset_ensures();
    let k = choose|k: int| 0 <= k < views(s1).len() && views(s1)[k] == x;
    assert(s1.contains(s1[k]));
    assert(s1.to_multiset().count(s1[k]) > 0);
    assert(s2.to_multiset().count(s1[k]) > 0);
    assert(s2.contains(s1[k]));
    let k2 = choose|k2: int| 0 <= k2 < s2.len() && s2[k2] == s1[k];
    assert(views(s2)[k2] == x);
}

/// Every node name of the graph, each once, in string order.
fn node_names(g: &Edges) -> (names: Vec<String>)
    ensures
        is_strictly_sorted(names@),
        forall|a: Seq<char>, b: Seq<char>|
            #[trigger] has_edge(g@, a, b) ==> views(names@).contains(a) && views(names@).contains(b),
        forall|i: int| 0 <= i < g@.len() ==> views(names@).contains(#[trigger] g@[i].0@),
        forall|x: Seq<char>| #[trigger] views(names@).contains(x) ==> is_node(g@, x),
{
    let mut all: Vec<String> = Vec::new();
    let mut i: usize = 0;
    while i < g.len()
        invariant
            i <= g@.len(),
            forall|i2: int, j2: int|
                0 <= i2 < i && 0 <= j2 < g@[i2].1@.len() ==> views(all@).contains(
                    #[trigger] g@[i2].1@[j2]@,
                ),
            forall|i2: int| 0 <= i2 < i ==> views(all@).contains(#[trigger] g@[i2].0@),
            forall|k: int| 0 <= k < all@.len() ==> is_node(g@, (#[trigger] all@[k])@),
        decreases g@.len() - i,
    {
        let ghost before = all@;
        all.push(g[i].0.clone());
        proof {
            assert(views(all@) =~= views(before).push(g@[i as int].0@));
            assert(views(all@)[before.len() as int] == g@[i as int].0@);
            assert forall|x: Seq<char>| views(before).contains(x) implies views(all@).contains(x) by {
                let k = choose|k: int| 0 <= k < views(before).len() && views(before)[k] == x;
                assert(views(all@)[k] == x);
            }
        }
        let targets = &g[i].1;
        let mut j: usize = 0;
        while j < targets.len()
            invariant
                i < g@.len(),
                targets@ == g@[i as int].1@,
                j <= targets@.len(),
                forall|i2: int, j2: int|
                    0 <= i2 < i && 0 <= j2 < g@[i2].1@.len() ==> views(all@).contains(
                        #[trigger] g@[i2].1@[j2]@,
                    ),
                forall|j2: int| 0 <= j2 < j ==> views(all@).contains(#[trigger] targets@[j2]@),
                forall|i2: int| 0 <= i2 <= i ==> views(all@).contains(#[trigger] g@[i2].0@),
                forall|k: int| 0 <= k < all@.len() ==> is_node(g@, (#[trigger] all@[k])@),
            decreases targets@.len() - j,
        {
            let ghost prev = all@;
            all.push(targets[j].clone());
            proof {
                assert(views(all@) =~= views(prev).push(targets@[j as int]@));
                assert(views(all@)[prev.len() as int] == targets@[j as int]@);
                assert forall|x: Seq<char>| views(prev).contains(x) implies views(all@).contains(x) by {
                    let k = choose|k: int| 0 <= k < views(prev).len() && views(prev)[k] == x;
                    assert(views(all@)[k] == x);
                }
            }
            j = j + 1;
        }
        i = i + 1;
    }
    let sorted = sort_strings(all);
    let names = dedup_sorted(&sorted);
    proof {
        assert forall|x: Seq<char>| views(all@).contains(x) implies views(names@).contains(x) by {
            lemma_multiset_views_contains(all@, sorted@, x);
            assert(views(sorted@).to_set().contains(x));
        }
        assert forall|a: Seq<char>, b: Seq<char>| #[trigger] has_edge(g@, a, b) implies views(
            names@,
        ).contains(a) && views(names@).contains(b) by {
            let (i2, j2) = choose|i2: int, j2: int|
                #![trigger g@[i2].1@[j2]]
                0 <= i2 < g@.len() && 0 <= j2 < g@[i2].1@.len() && g@[i2].0@ == a && g@[i2].1@[j2]@ == b;
            assert(views(all@).contains(g@[i2].0@));
            assert(views(all@).contains(g@[i2].1@[j2]@));
        }
        assert forall|i2: int| 0 <= i2 < g@.len() implies views(names@).contains(#[trigger] g@[i2].0@) by {
            assert(views(all@).contains(g@[i2].0@));
        }
        assert forall|x: Seq<char>| #[trigger] views(names@).contains(x) implies is_node(g@, x) by {
            assert(views(sorted@).to_set().contains(x));
            lemma_multiset_views_contains(sorted@, all@, x);
            let k = choose|k: int| 0 <= k < views(all@).len() && views(all@)[k] == x;
            assert(is_node(g@, all@[k]@));
        }
    }
    names
}

/// The position of a node name that is known to be there.
fn position_of(names: &Vec<String>, x: &String) -> (p: usize)
    requires
        is_strictly_sorted(names@),
        views(names@).contains(x@),
    ensures
        p < names@.len(),
        names@[p as int]@ == x@,
{
    let k = Ghost(choose|k: int| 0 <= k < views(names@).len() && views(names@)[k] == x@);
    assert(names@[k@]@ == x@);
    match find_sorted(names, x) {
        Some(p) => p,
        None => {
            assert(false);
            0
        },
    }
}

/// The positions in `v`, each once, in increasing order.
fn sorted_positions(v: &Vec<usize>) -> (r: Vec<usize>)
    ensures
        forall|a: int, b: int| 0 <= a < b < r@.len() ==> r@[a] < r@[b],
        forall|x: usize| r@.contains(x) <==> v@.contains(x),
{
    let mut r: Vec<usize> = Vec::new();
    let n = v.len();
    let mut i: usize = 0;
    while i < n
        invariant
            n == v@.len(),
            i <= n,
            forall|a: int, b: int| 0 <= a < b < r@.len() ==> r@[a] < r@[b],
            forall|x: usize| r@.contains(x) <==> v@.take(i as int).contains(x),
        decreases n - i,
    {
        let x = v[i];
        let m = r.len();
        let mut p: usize = 0;
        while p < m && r[p] < x
            invariant
                m == r@.len(),
                p <= m,
                forall|a: int| 0 <= a < p ==> r@[a] < x,
            decreases m - p,
        {
            p = p + 1;
        }
        let ghost before = r@;
        assert(v@.take(i + 1) =~= v@.take(i as int).push(x));
        if p < m && r[p] == x {
            assert(before.contains(x));
        } else {
            r.insert(p, x);
            proof {
                assert forall|a: int, b: int| 0 <= a < b < r@.len() implies r@[a] < r@[b] by {
                    if b < p {
                        assert(r@[a] == before[a] && r@[b] == before[b]);
                    } else if b == p {
                        assert(r@[a] == before[a]);
                    } else if a < p {
                        assert(r@[a] == before[a] && r@[b] == before[b - 1]);
                    } else if a == p {
                        assert(r@[b] == before[b - 1]);
                        assert(before[p as int] > x);
                        if b - 1 > p {
                            assert(before[p as int] < before[b - 1]);
                        }
                    } else {
                        assert(r@[a] == before[a - 1] && r@[b] == before[b - 1]);
                    }
                }
                assert forall|y: usize| r@.contains(y) <==> v@.take(i + 1).contains(y) by {
                    if r@.contains(y) {
                        let k = choose|k: int| 0 <= k < r@.len() && r@[k] == y;
                        if k < p {
                            assert(before[k] == y);
                            assert(before.contains(y));
                        } else if k > p {
                            assert(before[k - 1] == y);
                            assert(before.contains(y));
                        }
                        if y != x {
                            assert(before.contains(y));
                            assert(v@.take(i as int).contains(y));
                            let k2 = choose|k2: int| 0 <= k2 < i && v@.take(i as int)[k2] == y;
                            assert(v@.take(i + 1)[k2] == y);
                        } else {
                            assert(v@.take(i + 1)[i as int] == y);
                        }
                    }
                    if v@.take(i + 1).contains(y) && y != x {
                        assert(v@.take(i as int).contains(y));
                        assert(before.contains(y));
                        let k = choose|k: int| 0 <= k < before.len() && before[k] == y;
                        if k < p {
                            assert(r@[k] == y);
                        } else {
                            assert(r@[k + 1] == y);
                        }
                    }
                    if y == x {
                        assert(r@[p as int] == x);
                    }
                }
            }
        }
        i = i + 1;
    }
    assert(v@.take(n as int) =~= v@);
    r
}

/// The targets of node `u` by position, as the first `i` entries list them, in the order given
/// (a target listed twice comes twice).
pub open spec fn entry_row(g: Seq<(String, Vec<String>)>, names: Seq<String>, u: int, i: int) -> Seq<usize>
    decreases i,
{
    if i <= 0 {
        seq![]
    } else {
        entry_row(g, names, u, i - 1) + if g[i - 1].0@ == names[u]@ {
            g[i - 1].1@.map_values(|t: String| pos(names, t@) as usize)
        } else {
            seq![]
        }
    }
}

/// Each node's targets come in increasing position, each once.
pub open spec fn rows_increasing(adj: Seq<Vec<usize>>) -> bool {
    forall|u: int, a: int, b: int| 0 <= u < adj.len() && 0 <= a < b < adj[u]@.len() ==> #[trigger] adj[u]@[a] < #[trigger] adj[u]@[b]
}

/// Names the nodes and gives each node's out-edges by position; with `sorted`, each node's
/// targets come once each, in name order.
fn index_graph(g: &Edges, sorted: bool) -> (r: (Vec<String>, Vec<Vec<usize>>))
    ensures
        indexes(r.0@, r.1@, g@),
        forall|x: Seq<char>| #[trigger] views(r.0@).contains(x) <==> is_node(g@, x),
        sorted ==> rows_increasing(r.1@),
        !sorted ==> forall|u: int| 0 <= u < r.1@.len() ==> (#[trigger] r.1@[u])@ == entry_row(g@, r.0@, u, g@.len() as int),
{
    let names = node_names(g);
    let n = names.len();
    proof {
        assert forall|x: Seq<char>| #[trigger] is_node(g@, x) implies views(names@).contains(x) by {
            if !(exists|i: int| 0 <= i < g@.len() && (#[trigger] g@[i]).0@ == x) {
                let (i, j) = choose|i: int, j: int|
                    0 <= i < g@.len() && 0 <= j < g@[i].1@.len() && (#[trigger] g@[i].1@[j])@ == x;
                assert(has_edge(g@, g@[i].0@, g@[i].1@[j]@));
            } else {
                let i = choose|i: int| 0 <= i < g@.len() && (#[trigger] g@[i]).0@ == x;
                assert(views(names@).contains(g@[i].0@));
            }
        }
    }
    let mut adj: Vec<Vec<usize>> = Vec::new();
    let mut k: usize = 0;
    while k < n
        invariant
            k <= n,
            adj@.len() == k,
            forall|u: int| 0 <= u < k ==> (#[trigger] adj@[u])@.len() == 0,
        decreases n - k,
    {
        adj.push(Vec::new());
        k = k + 1;
    }
    let mut i: usize = 0;
    while i < g.len()
        invariant
            n == names@.len(),
            adj@.len() == n,
            is_strictly_sorted(names@),
            i <= g@.len(),
            forall|a: Seq<char>, b: Seq<char>|
                #[trigger] has_edge(g@, a, b) ==> views(names@).contains(a) && views(names@).contains(b),
            forall|i2: int| 0 <= i2 < g@.len() ==> views(names@).contains(#[trigger] g@[i2].0@),
            forall|u: int, j: int|
                0 <= u < n && 0 <= j < adj@[u]@.len() ==> #[trigger] adj@[u]@[j] < n,
            forall|u: int, j: int|
                0 <= u < n && 0 <= j < adj@[u]@.len() ==> has_edge(
                    g@,
                    names@[u]@,
                    names@[#[trigger] adj@[u]@[j] as int]@,
                ),
            forall|i2: int, j2: int|
                0 <= i2 < i && 0 <= j2 < g@[i2].1@.len() ==> index_edge(
                    adj@,
                    pos(names@, g@[i2].0@),
                    pos(names@, #[trigger] g@[i2].1@[j2]@),
                ),
            forall|u2: int| 0 <= u2 < n ==> (#[trigger] adj@[u2])@ == entry_row(g@, names@, u2, i as int),
        decreases g@.len() - i,
    {
        let u = position_of(&names, &g[i].0);
        let targets = &g[i].1;
        let mut j: usize = 0;
        assert(targets@.take(0).map_values(|t: String| pos(names@, t@) as usize) =~= Seq::<usize>::empty());
        assert(adj@[u as int]@ =~= entry_row(g@, names@, u as int, i as int) + targets@.take(0).map_values(
            |t: String| pos(names@, t@) as usize,
        ));
        while j < targets.len()
            invariant
                n == names@.len(),
                adj@.len() == n,
                is_strictly_sorted(names@),
                i < g@.len(),
                u < n,
                names@[u as int]@ == g@[i as int].0@,
                targets@ == g@[i as int].1@,
                j <= targets@.len(),
                forall|a: Seq<char>, b: Seq<char>|
                    #[trigger] has_edge(g@, a, b) ==> views(names@).contains(a) && views(
                        names@,
                    ).contains(b),
                forall|u2: int, j3: int|
                    0 <= u2 < n && 0 <= j3 < adj@[u2]@.len() ==> #[trigger] adj@[u2]@[j3] < n,
                forall|u2: int, j3: int|
                    0 <= u2 < n && 0 <= j3 < adj@[u2]@.len() ==> has_edge(
                        g@,
                        names@[u2]@,
                        names@[#[trigger] adj@[u2]@[j3] as int]@,
                    ),
                forall|i2: int, j2: int|
                    ((0 <= i2 < i && 0 <= j2 < g@[i2].1@.len()) || (i2 == i && 0 <= j2 < j))
                        ==> index_edge(adj@, pos(names@, g@[i2].0@), pos(names@, #[trigger] g@[i2].1@[j2]@)),
                forall|u2: int| 0 <= u2 < n && u2 != u ==> (#[trigger] adj@[u2])@ == entry_row(g@, names@, u2, i as int),
                adj@[u as int]@ == entry_row(g@, names@, u as int, i as int) + targets@.take(j as int).map_values(
                    |t: String| pos(names@, t@) as usize,
                ),
            decreases targets@.len() - j,
        {
            assert(has_edge(g@, g@[i as int].0@, g@[i as int].1@[j as int]@));
            let v = position_of(&names, &targets[j]);
            let ghost before = adj@;
            adj[u].push(v);
            proof {
                let row = adj@[u as int]@;
                assert(row == before[u as int]@.push(v));
                lemma_pos(names@, v as int);
                assert(targets@.take(j + 1).map_values(|t: String| pos(names@, t@) as usize) =~= targets@.take(
                    j as int,
                ).map_values(|t: String| pos(names@, t@) as usize).push(v));
                assert forall|u2: int| 0 <= u2 < n && u2 != u implies (#[trigger] adj@[u2])@ == entry_row(g@, names@, u2, i as int) by {
                    assert(adj@[u2] == before[u2]);
                }
                assert forall|u2: int, j3: int|
                    0 <= u2 < n && 0 <= j3 < adj@[u2]@.len() implies #[trigger] adj@[u2]@[j3] < n
                    && has_edge(g@, names@[u2]@, names@[adj@[u2]@[j3] as int]@) by {
                    if u2 == u && j3 == row.len() - 1 {
                    } else if u2 == u {
                        assert(adj@[u2]@[j3] == before[u2]@[j3]);
                    } else {
                        assert(adj@[u2] == before[u2]);
                    }
                }
                assert forall|i2: int, j2: int|
                    (0 <= i2 < i && 0 <= j2 < g@[i2].1@.len()) || (i2 == i && 0 <= j2 < j + 1)
                    implies index_edge(adj@, pos(names@, g@[i2].0@), pos(names@, #[trigger] g@[i2].1@[j2]@)) by {
                    let u2 = pos(names@, g@[i2].0@);
                    let v2 = pos(names@, g@[i2].1@[j2]@);
                    if i2 == i && j2 == j {
                        lemma_pos(names@, u as int);
                        lemma_pos(names@, v as int);
                        assert(row[row.len() - 1] == v2);
                    } else {
                        assert(has_edge(g@, g@[i2].0@, g@[i2].1@[j2]@));
                        lemma_pos_contains(names@, g@[i2].0@);
                        lemma_pos_contains(names@, g@[i2].1@[j2]@);
                        assert(index_edge(before, u2, v2));
                        let jj = choose|jj: int| 0 <= jj < before[u2]@.len() && before[u2]@[jj] == v2;
                        if u2 == u {
                            assert(row[jj] == v2);
                        } else {
                            assert(adj@[u2] == before[u2]);
                        }
                    }
                }
            }
            j = j + 1;
        }
        proof {
            assert(targets@.take(targets@.len() as int) =~= targets@);
            assert forall|u2: int| 0 <= u2 < n implies (#[trigger] adj@[u2])@ == entry_row(g@, names@, u2, i + 1) by {
                if u2 == u as int {
                    assert(entry_row(g@, names@, u2, i + 1) =~= entry_row(g@, names@, u2, i as int)
                        + g@[i as int].1@.map_values(|t: String| pos(names@, t@) as usize));
                } else {
                    if u2 < u {
                        assert(names@[u2]@ != names@[u as int]@);
                    } else {
                        assert(names@[u as int]@ != names@[u2]@);
                    }
                    assert(entry_row(g@, names@, u2, i + 1) =~= entry_row(g@, names@, u2, i as int));
                }
            }
        }
        i = i + 1;
    }
    proof {
        assert forall|u: int, v: int|
            0 <= u < n && 0 <= v < n implies (#[trigger] index_edge(adj@, u, v) <==> has_edge(
            g@,
            names@[u]@,
            names@[v]@,
        )) by {
            if index_edge(adj@, u, v) {
                let j = choose|j: int| 0 <= j < adj@[u]@.len() && adj@[u]@[j] == v;
                assert(has_edge(g@, names@[u]@, names@[adj@[u]@[j] as int]@));
            }
            if has_edge(g@, names@[u]@, names@[v]@) {
                let (i2, j2) = choose|i2: int, j2: int|
                    #![trigger g@[i2].1@[j2]]
                    0 <= i2 < g@.len() && 0 <= j2 < g@[i2].1@.len() && g@[i2].0@ == names@[u]@
                        && g@[i2].1@[j2]@ == names@[v]@;
                lemma_pos(names@, u);
                lemma_pos(names@, v);
                assert(index_edge(adj@, pos(names@, g@[i2].0@), pos(names@, g@[i2].1@[j2]@)));
            }
        }
    }
    if !sorted {
        return (names, adj);
    }
    let mut rows: Vec<Vec<usize>> = Vec::new();
    let mut u: usize = 0;
    while u < n
        invariant
            n == names@.len(),
            adj@.len() == n,
            u <= n,
            rows@.len() == u,
            indexes(names@, adj@, g@),
            forall|u2: int, j: int|
                0 <= u2 < u && 0 <= j < rows@[u2]@.len() ==> #[trigger] rows@[u2]@[j] < n,
            forall|u2: int, v: usize| 0 <= u2 < u ==> (#[trigger] rows@[u2]@.contains(v) <==> adj@[u2]@.contains(v)),
            rows_increasing(rows@),
        decreases n - u,
    {
        let row = sorted_positions(&adj[u]);
        proof {
            assert forall|j: int| 0 <= j < row@.len() implies #[trigger] row@[j] < n by {
                assert(row@.contains(row@[j]));
                assert(adj@[u as int]@.contains(row@[j]));
                let jj = choose|jj: int| 0 <= jj < adj@[u as int]@.len() && adj@[u as int]@[jj] == row@[j];
            }
        }
        rows.push(row);
        u = u + 1;
    }
    proof {
        assert forall|u2: int, v: int|
            0 <= u2 < n && 0 <= v < n implies (#[trigger] index_edge(rows@, u2, v) <==> has_edge(
            g@,
            names@[u2]@,
            names@[v]@,
        )) by {
            if index_edge(rows@, u2, v) {
                let j = choose|j: int| 0 <= j < rows@[u2]@.len() && rows@[u2]@[j] == v;
                assert(rows@[u2]@.contains(v as usize));
                assert(adj@[u2]@.contains(v as usize));
                let jj = choose|jj: int| 0 <= jj < adj@[u2]@.len() && adj@[u2]@[jj] == v as usize;
                assert(index_edge(adj@, u2, v));
            }
            if has_edge(g@, names@[u2]@, names@[v]@) {
                assert(index_edge(adj@, u2, v));
                let jj = choose|jj: int| 0 <= jj < adj@[u2]@.len() && adj@[u2]@[jj] == v;
                assert(adj@[u2]@.contains(v as usize));
                assert(rows@[u2]@.contains(v as usize));
                let j = choose|j: int| 0 <= j < rows@[u2]@.len() && rows@[u2]@[j] == v as usize;
                assert(index_edge(rows@, u2, v));
            }
        }
    }
    (names, rows)
}


/// Along a closed walk in a graph whose edges all lower `fin`, `fin` falls by at least one per step.
#[verifier::spinoff_prover]
#[verifier::rlimit(30)]
proof fn lemma_walk_descends(
    names: Seq<String>,
    adj: Seq<Vec<usize>>,
    g: Seq<(String, Vec<String>)>,
    fin: Seq<int>,
    w: Seq<Seq<char>>,
    k: int,
)
    requires
        indexes(names, adj, g),
        fin.len() == names.len(),
        forall|u: int, j: int|
            0 <= u < adj.len() && 0 <= j < adj[u]@.len() ==> fin[#[trigger] adj[u]@[j] as int] < fin[u],
        is_closed_walk(g, w),
        0 <= k < w.len(),
    ensures
        0 <= pos(names, w[k]) < names.len(),
        names[pos(names, w[k])]@ == w[k],
        fin[pos(names, w[k])] <= fin[pos(names, w[0])] - k,
    decreases k,
{
    assert(has_edge(g, w[k], w[next_on(k, w.len() as int)]));
    lemma_pos_contains(names, w[k]);
    if k > 0 {
        lemma_walk_descends(names, adj, g, fin, w, k - 1);
        assert(has_edge(g, w[k - 1], w[next_on(k - 1, w.len() as int)]));
        let a = pos(names, w[k - 1]);
        let b = pos(names, w[k]);
        assert(index_edge(adj, a, b));
        let j = choose|j: int| 0 <= j < adj[a]@.len() && adj[a]@[j] == b;
        assert(fin[adj[a]@[j] as int] < fin[a]);
    }
}

/// A graph whose edges all lower a ranking of its nodes has no cycle.
proof fn lemma_ranked_acyclic(
    names: Seq<String>,
    adj: Seq<Vec<usize>>,
    g: Seq<(String, Vec<String>)>,
    fin: Seq<int>,
)
    requires
        indexes(names, adj, g),
        fin.len() == names.len(),
        forall|u: int, j: int|
            0 <= u < adj.len() && 0 <= j < adj[u]@.len() ==> fin[#[trigger] adj[u]@[j] as int] < fin[u],
    ensures
        !has_cycle(g),
{
    if has_cycle(g) {
        let w = choose|w: Seq<Seq<char>>| is_closed_walk(g, w);
        let m = w.len() as int;
        lemma_walk_descends(names, adj, g, fin, w, m - 1);
        lemma_walk_descends(names, adj, g, fin, w, 0);
        assert(has_edge(g, w[m - 1], w[next_on(m - 1, m)]));
        let a = pos(names, w[m - 1]);
        let b = pos(names, w[0]);
        assert(index_edge(adj, a, b));
        let j = choose|j: int| 0 <= j < adj[a]@.len() && adj[a]@[j] == b;
        assert(fin[adj[a]@[j] as int] < fin[a]);
    }
}

/// Number of unvisited nodes.
spec fn count_white(s: Seq<u8>) -> nat
    decreases s.len(),
{
    if s.len() == 0 {
        0
    } else {
        count_white(s.drop_last()) + if s.last() == 0 {
            1nat
        } else {
            0nat
        }
    }
}

proof fn lemma_count_white_update(s: Seq<u8>, i: int, x: u8)
    requires
        0 <= i < s.len(),
    ensures
        count_white(s.update(i, x)) + (if s[i] == 0 {
            1int
        } else {
            0int
        }) == count_white(s) + (if x == 0 {
            1int
        } else {
            0int
        }),
    decreases s.len(),
{
    let u = s.update(i, x);
    if i < s.len() - 1 {
        assert(u.drop_last() =~= s.drop_last().update(i, x));
        lemma_count_white_update(s.drop_last(), i, x);
    } else {
        assert(u.drop_last() =~= s.drop_last());
    }
}

/// Out-edges not yet walked on the frames of the search path.
spec fn unscanned(adj: Seq<Vec<usize>>, path: Seq<usize>, cur: Seq<usize>) -> nat
    decreases path.len(),
{
    if path.len() == 0 || cur.len() == 0 {
        0
    } else {
        unscanned(adj, path.drop_last(), cur.drop_last()) + if cur.last()
            <= adj[path.last() as int]@.len() {
            (adj[path.last() as int]@.len() - cur.last()) as nat
        } else {
            0nat
        }
    }
}

/// Every finished node has only finished targets, each finished earlier.
spec fn done_ranked(adj: Seq<Vec<usize>>, state: Seq<u8>, fin: Seq<int>) -> bool {
    forall|u: int, j: int|
        0 <= u < adj.len() && state[u] == 2 && 0 <= j < adj[u]@.len() ==> state[#[trigger] adj[u]@[j] as int]
            == 2 && fin[adj[u]@[j] as int] < fin[u]
}

/// The state of the depth-first search: each node's colour (0 unvisited, 1 on the path,
/// 2 finished), the path with the next out-edge to walk from each of its nodes, the next root to
/// start from, and the member sets of the cycles closed so far.
#[verifier::ext_equal]
pub struct DfsState {
    pub colour: Seq<u8>,
    pub path: Seq<usize>,
    pub cursors: Seq<usize>,
    pub root: int,
    pub closed: Set<Set<Seq<char>>>,
}

/// The search before its first step on `n` nodes.
pub open spec fn dfs_init(n: nat) -> DfsState {
    DfsState { colour: Seq::new(n, |u: int| 0u8), path: seq![], cursors: seq![], root: 0, closed: Set::empty() }
}

/// A position of `t` on the path.
pub open spec fn path_pos(path: Seq<usize>, t: usize) -> int {
    choose|k: int| 0 <= k < path.len() && path[k] == t
}

/// The names of the path's nodes from the position of `t` to the top: the cycle that an edge from
/// the top back to `t` closes.
pub open spec fn segment_set(names: Seq<String>, path: Seq<usize>, t: usize) -> Set<Seq<char>> {
    let s = path_pos(path, t);
    if 0 <= s <= path.len() {
        path.subrange(s, path.len() as int).map_values(|v: usize| names[v as int]@).to_set()
    } else {
        Set::empty()
    }
}

/// One step of the search. With an empty path it starts from the next unvisited root (or moves
/// past a visited one); otherwise the top node walks its next out-edge: to an unvisited node,
/// which joins the path; to a node on the path, which closes a cycle; or to a finished node, which
/// is passed over. A top node with no edge left is finished and leaves the path. Once every root
/// is passed the state no longer changes.
pub open spec fn dfs_step(names: Seq<String>, adj: Seq<Vec<usize>>, st: DfsState) -> DfsState {
    if st.path.len() == 0 {
        if st.root >= names.len() {
            st
        } else if st.colour[st.root] == 0 {
            DfsState {
                colour: st.colour.update(st.root, 1),
                path: seq![st.root as usize],
                cursors: seq![0usize],
                ..st
            }
        } else {
            DfsState { root: st.root + 1, ..st }
        }
    } else {
        let top = st.path.len() - 1;
        let u = st.path[top] as int;
        let c = st.cursors[top];
        if c < adj[u]@.len() {
            let t = adj[u]@[c as int];
            let cursors = st.cursors.update(top, (c + 1) as usize);
            if st.colour[t as int] == 0 {
                DfsState {
                    colour: st.colour.update(t as int, 1),
                    path: st.path.push(t),
                    cursors: cursors.push(0usize),
                    ..st
                }
            } else if st.colour[t as int] == 1 {
                DfsState { cursors, closed: st.closed.insert(segment_set(names, st.path, t)), ..st }
            } else {
                DfsState { cursors, ..st }
            }
        } else {
            DfsState {
                colour: st.colour.update(u, 2),
                path: st.path.drop_last(),
                cursors: st.cursors.drop_last(),
                ..st
            }
        }
    }
}

/// The search after `k` steps.
pub open spec fn dfs_run(names: Seq<String>, adj: Seq<Vec<usize>>, k: nat) -> DfsState
    decreases k,
{
    if k == 0 {
        dfs_init(names.len())
    } else {
        dfs_step(names, adj, dfs_run(names, adj, (k - 1) as nat))
    }
}

/// The search has passed every root.
pub open spec fn dfs_done(names: Seq<String>, st: DfsState) -> bool {
    st.path.len() == 0 && st.root >= names.len()
}

/// What a search, given step by step as `run`, has closed once it has passed all `n` roots.
pub open spec fn closed_when_done(run: spec_fn(nat) -> DfsState, n: int) -> Set<Set<Seq<char>>> {
    let k = choose|k: nat| (#[trigger] run(k)).path.len() == 0 && run(k).root >= n;
    run(k).closed
}

/// The member sets of the cycles the finished search has closed.
pub open spec fn dfs_cycles(names: Seq<String>, adj: Seq<Vec<usize>>) -> Set<Set<Seq<char>>> {
    closed_when_done(|k: nat| dfs_run(names, adj, k), names.len() as int)
}

/// A finished search stays as it is.
proof fn lemma_dfs_done_stays(names: Seq<String>, adj: Seq<Vec<usize>>, k: nat, j: nat)
    requires
        dfs_done(names, dfs_run(names, adj, k)),
        k <= j,
    ensures
        dfs_run(names, adj, j) == dfs_run(names, adj, k),
    decreases j,
{
    if j > k {
        lemma_dfs_done_stays(names, adj, k, (j - 1) as nat);
    }
}

/// Once the search is finished after `k` steps, what it has closed is `dfs_cycles`.
proof fn lemma_dfs_cycles(names: Seq<String>, adj: Seq<Vec<usize>>, k: nat)
    requires
        dfs_done(names, dfs_run(names, adj, k)),
    ensures
        dfs_cycles(names, adj) == dfs_run(names, adj, k).closed,
{
    let run = |j: nat| dfs_run(names, adj, j);
    assert(run(k).path.len() == 0 && run(k).root >= names.len());
    let k2 = choose|k2: nat| (#[trigger] run(k2)).path.len() == 0 && run(k2).root >= names.len() as int;
    assert(dfs_done(names, dfs_run(names, adj, k2)));
    if k2 <= k {
        lemma_dfs_done_stays(names, adj, k2, k);
    } else {
        lemma_dfs_done_stays(names, adj, k, k2);
    }
}

/// What the search has closed only grows.
proof fn lemma_closed_grows(names: Seq<String>, adj: Seq<Vec<usize>>, j: nat, k: nat)
    requires
        j <= k,
    ensures
        dfs_run(names, adj, j).closed.subset_of(dfs_run(names, adj, k).closed),
    decreases k,
{
    if j < k {
        lemma_closed_grows(names, adj, j, (k - 1) as nat);
    }
}

/// `k` is the first step after which the search, given step by step as `run`, has closed a cycle.
pub open spec fn first_at(run: spec_fn(nat) -> DfsState, k: nat) -> bool {
    &&& !run(k).closed.is_empty()
    &&& forall|j: nat| j < k ==> (#[trigger] run(j)).closed.is_empty()
}

/// What the search given as `run` has closed at the first step after which it has closed a cycle;
/// empty when it closes none.
pub open spec fn first_of(run: spec_fn(nat) -> DfsState) -> Set<Set<Seq<char>>> {
    if exists|k: nat| first_at(run, k) {
        run(choose|k: nat| first_at(run, k)).closed
    } else {
        Set::empty()
    }
}

/// The first step after which the search has closed a cycle.
pub open spec fn first_closing(names: Seq<String>, adj: Seq<Vec<usize>>, k: nat) -> bool {
    first_at(|j: nat| dfs_run(names, adj, j), k)
}

/// The member set of the first cycle the search closes, as a set of at most one: empty when the
/// search closes none.
pub open spec fn dfs_first(names: Seq<String>, adj: Seq<Vec<usize>>) -> Set<Set<Seq<char>>> {
    first_of(|j: nat| dfs_run(names, adj, j))
}

/// When the search first closes a cycle at step `k + 1`, that is the first cycle.
proof fn lemma_dfs_first_at(names: Seq<String>, adj: Seq<Vec<usize>>, k: nat)
    requires
        dfs_run(names, adj, k).closed.is_empty(),
        !dfs_run(names, adj, k + 1).closed.is_empty(),
    ensures
        dfs_first(names, adj) == dfs_run(names, adj, k + 1).closed,
{
    assert forall|j: nat| j < k + 1 implies (#[trigger] dfs_run(names, adj, j)).closed.is_empty() by {
        lemma_closed_grows(names, adj, j, k);
        assert(dfs_run(names, adj, j).closed.subset_of(dfs_run(names, adj, k).closed));
        if !dfs_run(names, adj, j).closed.is_empty() {
            let x = dfs_run(names, adj, j).closed.choose();
            assert(dfs_run(names, adj, j).closed.contains(x));
            assert(dfs_run(names, adj, k).closed.contains(x));
        }
    }
    assert(first_closing(names, adj, k + 1));
    let c = choose|c: nat| first_closing(names, adj, c);
    if c < k + 1 {
        assert(dfs_run(names, adj, c).closed.is_empty());
    } else if c > k + 1 {
        assert(dfs_run(names, adj, k + 1).closed.is_empty());
    }
}

/// A finished search that closed nothing never closes a cycle.
proof fn lemma_dfs_first_none(names: Seq<String>, adj: Seq<Vec<usize>>, k: nat)
    requires
        dfs_done(names, dfs_run(names, adj, k)),
        dfs_run(names, adj, k).closed.is_empty(),
    ensures
        dfs_first(names, adj) == Set::<Set<Seq<char>>>::empty(),
{
    let run = |j: nat| dfs_run(names, adj, j);
    if exists|c: nat| first_at(run, c) {
        let c = choose|c: nat| first_at(run, c);
        assert(first_closing(names, adj, c));
        if c <= k {
            lemma_closed_grows(names, adj, c, k);
            let x = dfs_run(names, adj, c).closed.choose();
            assert(dfs_run(names, adj, c).closed.contains(x));
            assert(dfs_run(names, adj, k).closed.contains(x));
        } else {
            lemma_dfs_done_stays(names, adj, k, c);
        }
    }
}

/// The member sets of the lists.
pub open spec fn found_sets(l: Seq<Vec<String>>) -> Set<Set<Seq<char>>> {
    Set::new(|x: Set<Seq<char>>| exists|k: int| 0 <= k < l.len() && views((#[trigger] l[k])@).to_set() == x)
}

/// The search state the executable search holds.
pub open spec fn dfs_at(colour: Seq<u8>, path: Seq<usize>, cursors: Seq<usize>, root: int, found: Seq<Vec<String>>) -> DfsState {
    DfsState { colour, path, cursors, root, closed: found_sets(found) }
}

/// The nodes of the path from `t` to its top, in string order, once the top's edge to `t` closes it.
fn cycle_on_path(
    names: &Vec<String>,
    adj: &Vec<Vec<usize>>,
    path: &Vec<usize>,
    cursors: &Vec<usize>,
    c: usize,
    t: usize,
    Ghost(g): Ghost<Seq<(String, Vec<String>)>>,
) -> (cyc: Vec<String>)
    requires
        indexes(names@, adj@, g),
        adj@.len() == names@.len(),
        path@.len() > 0,
        path@.len() == cursors@.len(),
        path@.contains(t),
        forall|k2: int| 0 <= k2 < path@.len() ==> (#[trigger] path@[k2]) < names@.len(),
        forall|k1: int, k2: int| 0 <= k1 < k2 < path@.len() ==> path@[k1] != path@[k2],
        forall|k2: int|
            0 <= k2 < path@.len() - 1 ==> 0 < #[trigger] cursors@[k2] && cursors@[k2] <= adj@[path@[k2] as int]@.len()
                && adj@[path@[k2] as int]@[cursors@[k2] - 1] == path@[k2 + 1],
        c < adj@[path@[path@.len() - 1] as int]@.len(),
        adj@[path@[path@.len() - 1] as int]@[c as int] == t,
    ensures
        is_cycle_of(g, cyc@),
        views(cyc@).to_set() == segment_set(names@, path@, t),
{
    let n = names.len();
    let mut s: usize = 0;
    while s < path.len() && path[s] != t
        invariant
            s <= path@.len(),
            path@.contains(t),
            forall|k3: int| 0 <= k3 < s ==> path@[k3] != t,
        decreases path@.len() - s,
    {
        s = s + 1;
    }
    proof {
        if s == path@.len() {
            let k3 = choose|k3: int| 0 <= k3 < path@.len() && path@[k3] == t;
            assert(path@[k3] != t);
        }
    }
    let mut seg: Vec<String> = Vec::new();
    let mut q: usize = s;
    while q < path.len()
        invariant
            s <= q <= path@.len(),
            seg@.len() == q - s,
            forall|k2: int| 0 <= k2 < path@.len() ==> (#[trigger] path@[k2]) < n,
            n == names@.len(),
            forall|k3: int| 0 <= k3 < q - s ==> (#[trigger] seg@[k3])@ == names@[path@[s + k3] as int]@,
        decreases path@.len() - q,
    {
        seg.push(names[path[q]].clone());
        q = q + 1;
    }
    let sorted = sort_strings(seg);
    let cyc = dedup_sorted(&sorted);
    proof {
        let m = path@.len() - s;
        let top = path@.len() - 1;
        let w = Seq::new(m as nat, |k3: int| names@[path@[s + k3] as int]@);
        assert(views(seg@) =~= w);
        assert forall|k3: int| 0 <= k3 < w.len() implies has_edge(
            g,
            #[trigger] w[k3],
            w[next_on(k3, w.len() as int)],
        ) by {
            let a = path@[s + k3] as int;
            if k3 + 1 < m {
                let b = path@[s + k3 + 1] as int;
                let j = cursors@[s + k3] - 1;
                assert(adj@[a]@[j] == b);
                assert(index_edge(adj@, a, b));
            } else {
                assert(a == path@[top] as int);
                assert(adj@[a]@[c as int] == t);
                assert(index_edge(adj@, a, t as int));
            }
        }
        assert(w.no_duplicates()) by {
            assert forall|k1: int, k2: int|
                0 <= k1 < w.len() && 0 <= k2 < w.len() && k1 != k2 implies w[k1] != w[k2] by {
                let a = path@[s + k1] as int;
                let b = path@[s + k2] as int;
                if s + k1 < s + k2 {
                    assert(path@[s + k1] != path@[s + k2]);
                } else {
                    assert(path@[s + k2] != path@[s + k1]);
                }
                if a < b {
                    assert(names@[a]@ != names@[b]@);
                } else {
                    assert(names@[b]@ != names@[a]@);
                }
            }
        }
        assert(views(sorted@).to_set() =~= views(seg@).to_set()) by {
            assert forall|x: Seq<char>| views(seg@).contains(x) implies views(sorted@).contains(x) by {
                lemma_multiset_views_contains(seg@, sorted@, x);
            }
            assert forall|x: Seq<char>| views(sorted@).contains(x) implies views(seg@).contains(x) by {
                lemma_multiset_views_contains(sorted@, seg@, x);
            }
        }
        assert(is_closed_walk(g, w));
        assert(w.to_set() == views(cyc@).to_set());
        let s2 = path_pos(path@, t);
        assert(path@[s as int] == t);
        if s2 < s {
            assert(path@[s2] != t);
        } else if s2 > s {
            assert(path@[s as int] != path@[s2]);
        }
        assert(w =~= path@.subrange(s as int, path@.len() as int).map_values(|v: usize| names@[v as int]@));
    }
    cyc
}

/// Depth-first search for cycles. With `first_only`, the search stops at the first cycle it closes.
fn search_cycles(
    names: &Vec<String>,
    adj: &Vec<Vec<usize>>,
    first_only: bool,
    Ghost(g): Ghost<Seq<(String, Vec<String>)>>,
) -> (found: Vec<Vec<String>>)
    requires
        indexes(names@, adj@, g),
    ensures
        lists_strictly_ordered(found@),
        forall|k: int| 0 <= k < found@.len() ==> is_cycle_of(g, #[trigger] found@[k]@),
        found@.len() == 0 <==> !has_cycle(g),
        first_only ==> found@.len() <= 1,
        !first_only ==> found_sets(found@) == dfs_cycles(names@, adj@),
        first_only ==> found_sets(found@) == dfs_first(names@, adj@),
{
    let n = names.len();
    let mut state: Vec<u8> = Vec::new();
    let mut k: usize = 0;
    while k < n
        invariant
            k <= n,
            state@.len() == k,
            forall|u: int| 0 <= u < k ==> state@[u] == 0,
        decreases n - k,
    {
        state.push(0);
        k = k + 1;
    }
    let ghost mut fin: Seq<int> = Seq::new(n as nat, |u: int| 0);
    let ghost mut counter: int = 0;
    let mut found: Vec<Vec<String>> = Vec::new();
    let ghost mut steps: nat = 0;
    proof {
        assert(state@ =~= Seq::new(n as nat, |u: int| 0u8));
        assert(found_sets(found@) =~= Set::<Set<Seq<char>>>::empty());
        assert(dfs_run(names@, adj@, 0) =~= dfs_at(state@, Seq::<usize>::empty(), Seq::<usize>::empty(), 0, found@));
    }
    let mut root: usize = 0;
    while root < n
        invariant
            dfs_run(names@, adj@, steps) == dfs_at(state@, Seq::<usize>::empty(), Seq::<usize>::empty(), root as int, found@),
            indexes(names@, adj@, g),
            n == names@.len(),
            n == adj@.len(),
            state@.len() == n,
            fin.len() == n,
            root <= n,
            forall|u: int| 0 <= u < n ==> state@[u] != 1 && state@[u] <= 2,
            forall|u: int| 0 <= u < root ==> state@[u] == 2,
            found@.len() == 0 ==> done_ranked(adj@, state@, fin),
            forall|u: int| 0 <= u < n && state@[u] == 2 ==> fin[u] < counter,
            lists_strictly_ordered(found@),
            forall|k2: int| 0 <= k2 < found@.len() ==> is_cycle_of(g, #[trigger] found@[k2]@),
            first_only ==> found@.len() == 0,
        decreases n - root,
    {
        if state[root] == 0 {
            let ghost s0 = state@;
            state.set(root, 1);
            let mut path: Vec<usize> = Vec::new();
            let mut cursors: Vec<usize> = Vec::new();
            path.push(root);
            cursors.push(0);
            proof {
                assert(dfs_step(names@, adj@, dfs_at(s0, Seq::<usize>::empty(), Seq::<usize>::empty(), root as int, found@))
                    =~= dfs_at(state@, path@, cursors@, root as int, found@));
                steps = (steps + 1) as nat;
                if found@.len() == 0 {
                    assert forall|u: int, j: int|
                        0 <= u < adj@.len() && state@[u] == 2 && 0 <= j < adj@[u]@.len() implies state@[#[trigger] adj@[u]@[j] as int]
                        == 2 && fin[adj@[u]@[j] as int] < fin[u] by {
                        assert(s0[u] == 2);
                        assert(s0[adj@[u]@[j] as int] == 2);
                    }
                }
                assert(path@[0] == root);
                assert forall|u2: int| 0 <= u2 < n && state@[u2] == 1 implies path@.contains(u2 as usize) by {
                    if u2 != root as int {
                        assert(s0[u2] != 1);
                    }
                    assert(path@[0] == u2 as usize);
                }
            }
            while path.len() > 0
                invariant
                    dfs_run(names@, adj@, steps) == dfs_at(state@, path@, cursors@, root as int, found@),
                    indexes(names@, adj@, g),
                    n == names@.len(),
                    n == adj@.len(),
                    state@.len() == n,
                    fin.len() == n,
                    root < n,
                    state@[root as int] != 0,
                    forall|u: int| 0 <= u < root ==> state@[u] == 2,
                    path@.len() == cursors@.len(),
                    forall|k2: int| 0 <= k2 < path@.len() ==> (#[trigger] path@[k2]) < n && state@[path@[k2] as int] == 1,
                    forall|k1: int, k2: int| 0 <= k1 < k2 < path@.len() ==> path@[k1] != path@[k2],
                    forall|u: int| 0 <= u < n && state@[u] == 1 ==> path@.contains(u as usize),
                    forall|u: int| 0 <= u < n ==> state@[u] <= 2,
                    forall|k2: int| 0 <= k2 < path@.len() ==> #[trigger] cursors@[k2] <= adj@[path@[k2] as int]@.len(),
                    forall|k2: int|
                        0 <= k2 < path@.len() - 1 ==> 0 < #[trigger] cursors@[k2] && adj@[path@[k2] as int]@[cursors@[k2] - 1]
                            == path@[k2 + 1],
                    found@.len() == 0 ==> done_ranked(adj@, state@, fin),
                    found@.len() == 0 ==> forall|k2: int, j: int|
                        0 <= k2 < path@.len() && 0 <= j < cursors@[k2] && !(k2 + 1 < path@.len() && j
                            == cursors@[k2] - 1) ==> state@[#[trigger] adj@[path@[k2] as int]@[j] as int] == 2,
                    forall|u: int| 0 <= u < n && state@[u] == 2 ==> fin[u] < counter,
                    lists_strictly_ordered(found@),
                    forall|k2: int| 0 <= k2 < found@.len() ==> is_cycle_of(g, #[trigger] found@[k2]@),
                    first_only ==> found@.len() == 0,
                decreases count_white(state@), unscanned(adj@, path@, cursors@) + path@.len(),
            {
                let ghost pre = dfs_at(state@, path@, cursors@, root as int, found@);
                let top = path.len() - 1;
                let u = path[top];
                let c = cursors[top];
                if c < adj[u].len() {
                    let t = adj[u][c];
                    let ghost cur0 = cursors@;
                    cursors.set(top, c + 1);
                    proof {
                        assert(cursors@.drop_last() =~= cur0.drop_last());
                    }
                    if state[t] == 0 {
                        let ghost st0 = state@;
                        let ghost p0 = path@;
                        let ghost c1 = cursors@;
                        state.set(t, 1);
                        path.push(t);
                        cursors.push(0);
                        proof {
                            lemma_count_white_update(st0, t as int, 1);
                            assert(path@.drop_last() =~= p0);
                            assert(cursors@.drop_last() =~= c1);
                            assert(!p0.contains(t)) by {
                                if p0.contains(t) {
                                    let k3 = choose|k3: int| 0 <= k3 < p0.len() && p0[k3] == t;
                                    assert(st0[p0[k3] as int] == 1);
                                }
                            }
                            assert forall|u2: int| 0 <= u2 < n && state@[u2] == 1 implies path@.contains(u2 as usize) by {
                                if u2 == t {
                                    assert(path@[path@.len() - 1] == t);
                                } else {
                                    assert(st0[u2] == 1);
                                    let k3 = choose|k3: int| 0 <= k3 < p0.len() && p0[k3] == u2 as usize;
                                    assert(path@[k3] == u2 as usize);
                                }
                            }
                            assert forall|k1: int, k2: int| 0 <= k1 < k2 < path@.len() implies path@[k1] != path@[k2] by {
                                if k2 == path@.len() - 1 {
                                    assert(p0.contains(p0[k1]));
                                }
                            }
                        }
                    } else if state[t] == 1 {
                        let cyc = cycle_on_path(names, adj, &path, &cursors, c, t, Ghost(g));
                        let ghost f0 = found@;
                        insert_list(&mut found, cyc);
                        proof {
                            assert(found_sets(found@) =~= found_sets(f0).insert(segment_set(names@, path@, t))) by {
                                assert forall|x: Set<Seq<char>>| #[trigger] found_sets(found@).contains(x) implies found_sets(f0).insert(
                                    segment_set(names@, path@, t),
                                ).contains(x) by {
                                    let k = choose|k: int| 0 <= k < found@.len() && views((#[trigger] found@[k])@).to_set() == x;
                                    if !(found@[k]@ == cyc@) {
                                        let k3 = choose|k3: int| 0 <= k3 < f0.len() && f0[k3] == found@[k];
                                        assert(views(f0[k3]@).to_set() == x);
                                    }
                                }
                                assert forall|x: Set<Seq<char>>| #[trigger] found_sets(f0).insert(segment_set(names@, path@, t)).contains(x)
                                    implies found_sets(found@).contains(x) by {
                                    if x == segment_set(names@, path@, t) {
                                        let k = choose|k: int| 0 <= k < found@.len() && views(#[trigger] found@[k]@) == views(cyc@);
                                        assert(views(found@[k]@).to_set() == x);
                                    } else {
                                        let k = choose|k: int| 0 <= k < f0.len() && views((#[trigger] f0[k])@).to_set() == x;
                                        assert(found@.contains(f0[k]));
                                        let k2 = choose|k2: int| 0 <= k2 < found@.len() && found@[k2] == f0[k];
                                        assert(views(found@[k2]@).to_set() == x);
                                    }
                                }
                            }
                            assert forall|k2: int| 0 <= k2 < found@.len() implies is_cycle_of(g, #[trigger] found@[k2]@) by {
                                if !(found@[k2]@ == cyc@) {
                                    let k3 = choose|k3: int| 0 <= k3 < f0.len() && f0[k3] == found@[k2];
                                    assert(is_cycle_of(g, f0[k3]@));
                                }
                            }
                        }
                        if first_only {
                            proof {
                                assert(found_sets(f0) =~= Set::<Set<Seq<char>>>::empty());
                                assert(dfs_step(names@, adj@, pre) =~= dfs_at(state@, path@, cursors@, root as int, found@));
                                assert(found_sets(found@).contains(segment_set(names@, path@, t)));
                                lemma_dfs_first_at(names@, adj@, steps);
                            }
                            return found;
                        }
                    }
                } else {
                    let ghost st0 = state@;
                    let ghost p0 = path@;
                    let ghost c0 = cursors@;
                    state.set(u, 2);
                    proof {
                        lemma_count_white_update(st0, u as int, 2);
                        fin = fin.update(u as int, counter);
                        counter = counter + 1;
                    }
                    path.pop();
                    cursors.pop();
                    proof {
                        assert(path@ =~= p0.drop_last());
                        assert(cursors@ =~= c0.drop_last());
                        assert forall|u2: int| 0 <= u2 < n && state@[u2] == 1 implies path@.contains(u2 as usize) by {
                            assert(st0[u2] == 1);
                            let k3 = choose|k3: int| 0 <= k3 < p0.len() && p0[k3] == u2 as usize;
                            if k3 == p0.len() - 1 {
                                assert(u2 == u as int);
                            }
                            assert(path@[k3] == u2 as usize);
                        }
                        if found@.len() == 0 {
                            assert forall|v: int, j: int|
                                0 <= v < adj@.len() && state@[v] == 2 && 0 <= j < adj@[v]@.len() implies state@[#[trigger] adj@[v]@[j] as int]
                                == 2 && fin[adj@[v]@[j] as int] < fin[v] by {
                                if v == u as int {
                                    assert(!(top + 1 < p0.len() && j == c0[top as int] - 1));
                                    assert(st0[adj@[v]@[j] as int] == 2);
                                } else {
                                    assert(st0[v] == 2);
                                }
                            }
                            assert forall|k2: int, j: int|
                                0 <= k2 < path@.len() && 0 <= j < cursors@[k2] && !(k2 + 1 < path@.len() && j
                                    == cursors@[k2] - 1) implies state@[#[trigger] adj@[path@[k2] as int]@[j] as int] == 2 by {
                                if k2 + 1 == path@.len() && j == cursors@[k2] - 1 {
                                    assert(adj@[p0[k2] as int]@[c0[k2] - 1] == p0[k2 + 1]);
                                } else {
                                    assert(st0[adj@[p0[k2] as int]@[j] as int] == 2);
                                }
                            }
                        }
                    }
                }
                proof {
                    assert(dfs_step(names@, adj@, pre) =~= dfs_at(state@, path@, cursors@, root as int, found@));
                    steps = (steps + 1) as nat;
                }
            }
        }
        let ghost before_root = dfs_at(state@, Seq::<usize>::empty(), Seq::<usize>::empty(), root as int, found@);
        root = root + 1;
        proof {
            assert(dfs_step(names@, adj@, before_root)
                =~= dfs_at(state@, Seq::<usize>::empty(), Seq::<usize>::empty(), root as int, found@));
            steps = (steps + 1) as nat;
        }
    }
    proof {
        lemma_dfs_cycles(names@, adj@, steps);
        if first_only {
            assert(found_sets(found@) =~= Set::<Set<Seq<char>>>::empty());
            lemma_dfs_first_none(names@, adj@, steps);
        }
        if found@.len() == 0 {
            lemma_ranked_acyclic(names@, adj@, g, fin);
        } else {
            let c0 = found@[0]@;
            assert(is_cycle_of(g, c0));
            let w = choose|w: Seq<Seq<char>>|
                is_closed_walk(g, w) && w.no_duplicates() && #[trigger] w.to_set() == views(c0).to_set();
            assert(has_cycle(g));
        }
    }
    found
}

/// `cs` reports cycles of `g`: each by its members in string order, each once, in list order,
/// and none exactly when `g` has no cycle.
pub open spec fn reports_cycles(g: Seq<(String, Vec<String>)>, cs: Seq<Vec<String>>) -> bool {
    &&& lists_strictly_ordered(cs)
    &&& forall|k: int| 0 <= k < cs.len() ==> is_cycle_of(g, #[trigger] cs[k]@)
    &&& (cs.len() == 0 <==> !has_cycle(g))
}

/// The sorted indexing of a graph: its node names (and nothing else), each once, in string order,
/// and each node's targets by position, each once, in increasing order.
pub open spec fn sorted_index(g: Seq<(String, Vec<String>)>, names: Seq<String>, adj: Seq<Vec<usize>>) -> bool {
    &&& indexes(names, adj, g)
    &&& forall|x: Seq<char>| #[trigger] views(names).contains(x) <==> is_node(g, x)
    &&& rows_increasing(adj)
}

/// `cs` reports, as `reports_cycles` says, exactly the cycles that the depth-first search over the
/// sorted indexing of `g` closes.
pub open spec fn search_reports(g: Seq<(String, Vec<String>)>, cs: Seq<Vec<String>>) -> bool {
    &&& reports_cycles(g, cs)
    &&& exists|names: Seq<String>, adj: Seq<Vec<usize>>|
        sorted_index(g, names, adj) && #[trigger] dfs_cycles(names, adj) == found_sets(cs)
}

/// The cycles that the depth-first search closes, visiting roots and targets in name order. Each
/// is given by its members in string order, each cycle once, and the cycles come in list order:
/// for every edge that leads back to a node on the search's path, the path's nodes from that node
/// on. There are none exactly when the graph has no cycle.
pub fn graph_cycles(edges: &Edges) -> (cycles: Vec<Vec<String>>)
    ensures
        search_reports(edges@, cycles@),
{
    let (names, adj) = index_graph(edges, true);
    search_cycles(&names, &adj, false, Ghost(edges@))
}

/// The indexing of a graph in entry order: its node names (and nothing else), each once, in
/// string order, and each node's targets by position as the entries list them.
pub open spec fn entry_order_index(g: Seq<(String, Vec<String>)>, names: Seq<String>, adj: Seq<Vec<usize>>) -> bool {
    &&& indexes(names, adj, g)
    &&& forall|x: Seq<char>| #[trigger] views(names).contains(x) <==> is_node(g, x)
    &&& forall|u: int| 0 <= u < adj.len() ==> (#[trigger] adj[u])@ == entry_row(g, names, u, g.len() as int)
}

/// The members, in string order, of the first cycle that the depth-first search closes, visiting
/// roots in name order and each node's targets in the order its entries list them; `None` when
/// the graph has no cycle.
pub fn first_cycle(edges: &Edges) -> (r: Option<Vec<String>>)
    ensures
        r is None <==> !has_cycle(edges@),
        r matches Some(c) ==> is_cycle_of(edges@, c@),
        exists|names: Seq<String>, adj: Seq<Vec<usize>>|
            entry_order_index(edges@, names, adj) && #[trigger] dfs_first(names, adj) == match r {
                Some(c) => Set::<Set<Seq<char>>>::empty().insert(views(c@).to_set()),
                None => Set::<Set<Seq<char>>>::empty(),
            },
{
    let (names, adj) = index_graph(edges, false);
    let mut found = search_cycles(&names, &adj, true, Ghost(edges@));
    let ghost all = found@;
    let r = found.pop();
    proof {
        assert(entry_order_index(edges@, names@, adj@));
        if all.len() == 1 {
            assert(found_sets(all) =~= Set::<Set<Seq<char>>>::empty().insert(views(all[0]@).to_set()));
        } else {
            assert(found_sets(all) =~= Set::<Set<Seq<char>>>::empty());
        }
    }
    r
}

// ---------------------------------------------------------------------------------------------
// One indexing per graph
// ---------------------------------------------------------------------------------------------

/// Name lists in strictly increasing string order with the same members are the same list.
proof fn lemma_sorted_names_unique(a: Seq<String>, b: Seq<String>)
    requires
        is_strictly_sorted(a),
        is_strictly_sorted(b),
        forall|x: Seq<char>| views(a).contains(x) <==> views(b).contains(x),
    ensures
        views(a) == views(b),
    decreases a.len(),
{
    if a.len() == 0 || b.len() == 0 {
        if b.len() > 0 {
            assert(views(b)[0] == b[0]@);
            assert(views(b).contains(b[0]@));
        }
        if a.len() > 0 {
            assert(views(a)[0] == a[0]@);
            assert(views(a).contains(a[0]@));
        }
        assert(views(a) =~= views(b));
    } else {
        let a0 = a[0]@;
        let b0 = b[0]@;
        assert(views(a)[0] == a0);
        assert(views(b)[0] == b0);
        assert(views(b).contains(a0));
        assert(views(a).contains(b0));
        let kb = choose|k: int| 0 <= k < views(b).len() && views(b)[k] == a0;
        let ka = choose|k: int| 0 <= k < views(a).len() && views(a)[k] == b0;
        lemma_lex_refl(key(a0));
        lemma_lex_refl(key(b0));
        if kb > 0 {
            assert(str_leq(b[0]@, b[kb]@));
        }
        if ka > 0 {
            assert(str_leq(a[0]@, a[ka]@));
        }
        assert(str_leq(b0, a0));
        assert(str_leq(a0, b0));
        lemma_lex_antisym(key(a0), key(b0));
        lemma_key_injective(a0, b0);
        let ta = a.drop_first();
        let tb = b.drop_first();
        assert forall|x: Seq<char>| views(ta).contains(x) <==> views(tb).contains(x) by {
            if views(ta).contains(x) {
                let k = choose|k: int| 0 <= k < views(ta).len() && views(ta)[k] == x;
                assert(a[k + 1]@ == x);
                assert(a[0]@ != a[k + 1]@);
                assert(views(a)[k + 1] == x);
                assert(views(a).contains(x));
                assert(views(b).contains(x));
                let k2 = choose|k2: int| 0 <= k2 < views(b).len() && views(b)[k2] == x;
                assert(views(b)[0] == b0);
                assert(k2 != 0);
                assert(views(tb)[k2 - 1] == x);
            }
            if views(tb).contains(x) {
                let k = choose|k: int| 0 <= k < views(tb).len() && views(tb)[k] == x;
                assert(b[k + 1]@ == x);
                assert(b[0]@ != b[k + 1]@);
                assert(views(b)[k + 1] == x);
                assert(views(b).contains(x));
                assert(views(a).contains(x));
                let k2 = choose|k2: int| 0 <= k2 < views(a).len() && views(a)[k2] == x;
                assert(views(a)[0] == a0);
                assert(k2 != 0);
                assert(views(ta)[k2 - 1] == x);
            }
        }
        lemma_sorted_names_unique(ta, tb);
        assert(views(a) =~= seq![a0] + views(ta));
        assert(views(b) =~= seq![b0] + views(tb));
    }
}

/// Increasing position lists with the same members are the same list.
proof fn lemma_increasing_unique(a: Seq<usize>, b: Seq<usize>)
    requires
        forall|i: int, j: int| 0 <= i < j < a.len() ==> a[i] < a[j],
        forall|i: int, j: int| 0 <= i < j < b.len() ==> b[i] < b[j],
        forall|x: usize| a.contains(x) <==> b.contains(x),
    ensures
        a == b,
    decreases a.len(),
{
    if a.len() == 0 || b.len() == 0 {
        if b.len() > 0 {
            assert(b.contains(b[0]));
        }
        if a.len() > 0 {
            assert(a.contains(a[0]));
        }
        assert(a =~= b);
    } else {
        assert(b.contains(a[0]));
        assert(a.contains(b[0]));
        let ta = a.drop_first();
        let tb = b.drop_first();
        assert(a[0] == b[0]);
        assert forall|x: usize| ta.contains(x) <==> tb.contains(x) by {
            if ta.contains(x) {
                let k = choose|k: int| 0 <= k < ta.len() && ta[k] == x;
                assert(a[k + 1] == x);
                assert(a.contains(x));
                let k2 = choose|k2: int| 0 <= k2 < b.len() && b[k2] == x;
                assert(k2 != 0);
                assert(tb[k2 - 1] == x);
            }
            if tb.contains(x) {
                let k = choose|k: int| 0 <= k < tb.len() && tb[k] == x;
                assert(b[k + 1] == x);
                assert(b.contains(x));
                let k2 = choose|k2: int| 0 <= k2 < a.len() && a[k2] == x;
                assert(k2 != 0);
                assert(ta[k2 - 1] == x);
            }
        }
        lemma_increasing_unique(ta, tb);
        assert(a =~= seq![a[0]] + ta);
        assert(b =~= seq![b[0]] + tb);
    }
}

/// In name lists with the same views, strictly sorted, a listed name stands at the same position.
proof fn lemma_pos_same(n1: Seq<String>, n2: Seq<String>, x: Seq<char>)
    requires
        is_strictly_sorted(n1),
        is_strictly_sorted(n2),
        views(n1) == views(n2),
        views(n1).contains(x),
    ensures
        pos(n1, x) == pos(n2, x),
{
    lemma_pos_contains(n1, x);
    assert(views(n2).contains(x));
    lemma_pos_contains(n2, x);
    let p1 = pos(n1, x);
    let p2 = pos(n2, x);
    assert(views(n1)[p1] == x);
    assert(views(n2)[p1] == x);
    assert(n2[p1]@ == x);
    if p1 < p2 {
        assert(n2[p1]@ != n2[p2]@);
    } else if p2 < p1 {
        assert(n2[p2]@ != n2[p1]@);
    }
}

/// Entry-order rows depend on the names only through their views.
proof fn lemma_entry_row_same(g: Seq<(String, Vec<String>)>, n1: Seq<String>, n2: Seq<String>, u: int, i: int)
    requires
        is_strictly_sorted(n1),
        is_strictly_sorted(n2),
        views(n1) == views(n2),
        0 <= u < n1.len(),
        i <= g.len(),
        forall|a: Seq<char>, b: Seq<char>|
            #[trigger] has_edge(g, a, b) ==> views(n1).contains(a) && views(n1).contains(b),
    ensures
        entry_row(g, n1, u, i) == entry_row(g, n2, u, i),
    decreases i,
{
    if i > 0 {
        lemma_entry_row_same(g, n1, n2, u, i - 1);
        assert(views(n1).len() == n1.len() && views(n2).len() == n2.len());
        assert(views(n1)[u] == views(n2)[u]);
        assert(views(n2)[u] == n2[u]@);
        assert(n1[u]@ == n2[u]@);
        let ts = g[i - 1].1@;
        assert forall|j: int| 0 <= j < ts.len() implies pos(n1, (#[trigger] ts[j])@) == pos(n2, ts[j]@) by {
            assert(has_edge(g, g[i - 1].0@, g[i - 1].1@[j]@));
            lemma_pos_same(n1, n2, ts[j]@);
        }
        assert(ts.map_values(|t: String| pos(n1, t@) as usize) =~= ts.map_values(|t: String| pos(n2, t@) as usize));
    }
}

/// Every state the search reaches keeps its path on the nodes, with a cursor for each.
proof fn lemma_run_on_nodes(names: Seq<String>, adj: Seq<Vec<usize>>, k: nat)
    requires
        adj.len() == names.len(),
        forall|u: int, j: int| 0 <= u < adj.len() && 0 <= j < adj[u]@.len() ==> #[trigger] adj[u]@[j] < names.len(),
    ensures
        dfs_run(names, adj, k).root >= 0,
        dfs_run(names, adj, k).cursors.len() == dfs_run(names, adj, k).path.len(),
        dfs_run(names, adj, k).colour.len() == names.len(),
        forall|i: int|
            0 <= i < dfs_run(names, adj, k).path.len() ==> #[trigger] dfs_run(names, adj, k).path[i] < names.len(),
    decreases k,
{
    if k > 0 {
        let p = (k - 1) as nat;
        lemma_run_on_nodes(names, adj, p);
        let st = dfs_run(names, adj, p);
        let nx = dfs_run(names, adj, k);
        assert(nx == dfs_step(names, adj, st));
        if st.path.len() == 0 {
            if st.root >= names.len() {
                assert(nx == st);
            } else if st.colour[st.root] == 0 {
                assert(nx.path =~= seq![st.root as usize]);
                assert(nx.cursors.len() == 1);
                assert(nx.colour =~= st.colour.update(st.root, 1));
            } else {
                assert(nx.path == st.path);
            }
        } else {
            let top = st.path.len() - 1;
            let u = st.path[top] as int;
            assert(st.path[top] < names.len());
            let c = st.cursors[top];
            if c < adj[u]@.len() {
                let t = adj[u]@[c as int];
                assert(t < names.len());
                if st.colour[t as int] == 0 {
                    assert(nx.path == st.path.push(t));
                    assert(nx.colour =~= st.colour.update(t as int, 1));
                    assert forall|i: int| 0 <= i < nx.path.len() implies #[trigger] nx.path[i] < names.len() by {
                        if i < st.path.len() {
                            assert(st.path[i] < names.len());
                        }
                    }
                } else {
                    assert(nx.path == st.path);
                }
            } else {
                assert(nx.path =~= st.path.drop_last());
                assert(nx.colour =~= st.colour.update(u, 2));
                assert forall|i: int| 0 <= i < nx.path.len() implies #[trigger] nx.path[i] < names.len() by {
                    assert(nx.path[i] == st.path[i]);
                    assert(st.path[i] < names.len());
                }
            }
        }
    } else {
        assert(dfs_run(names, adj, 0).colour.len() == names.len());
    }
}

/// Searches over indexings that agree on the node names and on every node's targets run alike.
proof fn lemma_run_same(n1: Seq<String>, a1: Seq<Vec<usize>>, n2: Seq<String>, a2: Seq<Vec<usize>>, k: nat)
    requires
        n1.len() == n2.len(),
        views(n1) == views(n2),
        a1.len() == n1.len(),
        forall|u: int| 0 <= u < a1.len() ==> (#[trigger] a1[u])@ == a2[u]@,
        forall|u: int, j: int| 0 <= u < a1.len() && 0 <= j < a1[u]@.len() ==> #[trigger] a1[u]@[j] < n1.len(),
    ensures
        dfs_run(n1, a1, k) == dfs_run(n2, a2, k),
    decreases k,
{
    if k > 0 {
        let p = (k - 1) as nat;
        lemma_run_same(n1, a1, n2, a2, p);
        lemma_run_on_nodes(n1, a1, p);
        let st = dfs_run(n1, a1, p);
        if st.path.len() > 0 {
            let u = st.path[st.path.len() - 1] as int;
            assert(a1[u]@ == a2[u]@);
            let c = st.cursors[st.path.len() - 1];
            if c < a1[u]@.len() {
                let t = a1[u]@[c as int];
                let s = path_pos(st.path, t);
                assert(views(n1).len() == n1.len() && views(n2).len() == n2.len());
                if 0 <= s <= st.path.len() {
                    let sub = st.path.subrange(s, st.path.len() as int);
                    assert forall|q: int| 0 <= q < sub.len() implies n1[(#[trigger] sub[q]) as int]@ == n2[sub[q] as int]@ by {
                        assert(sub[q] == st.path[s + q]);
                        assert(st.path[s + q] < n1.len());
                        let v = sub[q] as int;
                        assert(views(n1)[v] == n1[v]@ && views(n2)[v] == n2[v]@);
                    }
                    assert(sub.map_values(|v: usize| n1[v as int]@) =~= sub.map_values(|v: usize| n2[v as int]@));
                    assert(segment_set(n1, st.path, t) == sub.map_values(|v: usize| n1[v as int]@).to_set());
                    assert(segment_set(n2, st.path, t) == sub.map_values(|v: usize| n2[v as int]@).to_set());
                }
                assert(segment_set(n1, st.path, t) =~= segment_set(n2, st.path, t));
            }
        }
        assert(dfs_step(n1, a1, st) =~= dfs_step(n2, a2, st));
    }
}

/// A graph has exactly one sorted indexing, and exactly one in entry order: two such indexings
/// name the same nodes in the same order, give every node the same targets, and the searches over
/// them pass through the same states, so they close the same cycles in the same order.
pub proof fn lemma_one_indexing(
    g: Seq<(String, Vec<String>)>,
    n1: Seq<String>,
    a1: Seq<Vec<usize>>,
    n2: Seq<String>,
    a2: Seq<Vec<usize>>,
)
    requires
        (sorted_index(g, n1, a1) && sorted_index(g, n2, a2)) || (entry_order_index(g, n1, a1)
            && entry_order_index(g, n2, a2)),
    ensures
        views(n1) == views(n2),
        a1.len() == a2.len(),
        forall|u: int| 0 <= u < a1.len() ==> (#[trigger] a1[u])@ == a2[u]@,
        forall|k: nat| #[trigger] dfs_run(n1, a1, k) == dfs_run(n2, a2, k),
        dfs_cycles(n1, a1) == dfs_cycles(n2, a2),
        dfs_first(n1, a1) == dfs_first(n2, a2),
{
    lemma_sorted_names_unique(n1, n2);
    assert(views(n1).len() == n1.len() && views(n2).len() == n2.len());
    assert forall|u: int| 0 <= u < a1.len() implies (#[trigger] a1[u])@ == a2[u]@ by {
        if sorted_index(g, n1, a1) && sorted_index(g, n2, a2) {
            assert forall|x: usize| a1[u]@.contains(x) <==> a2[u]@.contains(x) by {
                if a1[u]@.contains(x) {
                    let j = choose|j: int| 0 <= j < a1[u]@.len() && a1[u]@[j] == x;
                    assert(index_edge(a1, u, x as int));
                    assert(views(n1)[u] == views(n2)[u] && views(n1)[x as int] == views(n2)[x as int]);
                    assert(index_edge(a2, u, x as int));
                    let j2 = choose|j2: int| 0 <= j2 < a2[u]@.len() && a2[u]@[j2] == x;
                }
                if a2[u]@.contains(x) {
                    let j = choose|j: int| 0 <= j < a2[u]@.len() && a2[u]@[j] == x;
                    assert(index_edge(a2, u, x as int));
                    assert(views(n1)[u] == views(n2)[u] && views(n1)[x as int] == views(n2)[x as int]);
                    assert(index_edge(a1, u, x as int));
                    let j2 = choose|j2: int| 0 <= j2 < a1[u]@.len() && a1[u]@[j2] == x;
                }
            }
            lemma_increasing_unique(a1[u]@, a2[u]@);
        } else {
            lemma_entry_row_same(g, n1, n2, u, g.len() as int);
        }
    }
    assert forall|k: nat| #[trigger] dfs_run(n1, a1, k) == dfs_run(n2, a2, k) by {
        lemma_run_same(n1, a1, n2, a2, k);
    }
    assert((|j: nat| dfs_run(n1, a1, j)) =~= (|j: nat| dfs_run(n2, a2, j)));
}

/// Graphs with the same edges have the same closed walks, so the same cycles.
pub proof fn lemma_same_edges(g1: Seq<(String, Vec<String>)>, g2: Seq<(String, Vec<String>)>)
    requires
        forall|a: Seq<char>, b: Seq<char>| has_edge(g1, a, b) <==> has_edge(g2, a, b),
    ensures
        has_cycle(g1) <==> has_cycle(g2),
        forall|w: Seq<Seq<char>>| is_closed_walk(g1, w) <==> is_closed_walk(g2, w),
        forall|c: Seq<String>| is_cycle_of(g1, c) <==> is_cycle_of(g2, c),
{
    assert forall|w: Seq<Seq<char>>| is_closed_walk(g1, w) <==> is_closed_walk(g2, w) by {
        if is_closed_walk(g1, w) {
            assert forall|k: int| 0 <= k < w.len() implies has_edge(g2, #[trigger] w[k], w[next_on(k, w.len() as int)]) by {
                assert(has_edge(g1, w[k], w[next_on(k, w.len() as int)]));
            }
        }
        if is_closed_walk(g2, w) {
            assert forall|k: int| 0 <= k < w.len() implies has_edge(g1, #[trigger] w[k], w[next_on(k, w.len() as int)]) by {
                assert(has_edge(g2, w[k], w[next_on(k, w.len() as int)]));
            }
        }
    }
    if has_cycle(g1) {
        let w = choose|w: Seq<Seq<char>>| is_closed_walk(g1, w);
        assert(is_closed_walk(g2, w));
    }
    if has_cycle(g2) {
        let w = choose|w: Seq<Seq<char>>| is_closed_walk(g2, w);
        assert(is_closed_walk(g1, w));
    }
    assert forall|c: Seq<String>| is_cycle_of(g1, c) <==> is_cycle_of(g2, c) by {
        if is_cycle_of(g1, c) {
            let w = choose|w: Seq<Seq<char>>|
                is_closed_walk(g1, w) && w.no_duplicates() && #[trigger] w.to_set() == views(c).to_set();
            assert(is_closed_walk(g2, w));
        }
        if is_cycle_of(g2, c) {
            let w = choose|w: Seq<Seq<char>>|
                is_closed_walk(g2, w) && w.no_duplicates() && #[trigger] w.to_set() == views(c).to_set();
            assert(is_closed_walk(g1, w));
        }
    }
}
} // verus!
