//! Dijkstra's single-source shortest paths over nodes numbered `0..n`.
//!
//! The result is a shortest-path tree: a distance for every node that the
//! source reaches, and for every such node but the source the tree parent
//! through which a cheapest path arrives.
use vstd::prelude::*;

verus! {

/// Edge costs stay below this bound, so that no distance overflows.
pub const EDGE_COST_LIMIT: u64 = 0x2_0000_0000u64;

/// A weighted directed edge: source, target, cost.
pub type CostEdge = (usize, usize, u64);

/// Whether `edges` holds an edge from `p` to `y` whose cost takes `y` from
/// distance `dp` to distance `dy`.
pub open spec fn tight_edge(edges: Seq<CostEdge>, p: int, y: int, dp: int, dy: int) -> bool {
    exists|k: int|
        0 <= k < edges.len() && (#[trigger] edges[k]).0 == p && edges[k].1 == y && dy == dp
            + edges[k].2
}

/// The certificate of a shortest-path tree rooted at `src` over nodes
/// `0..n`: `dist` is finite exactly on the nodes that `src` reaches, no edge
/// out of a reached node can shorten a distance, every reached node but the
/// source has a parent whose edge it is reached through at exactly its
/// distance, and `rank` strictly grows from parent to child, so that
/// following parents always ends at the source.
pub open spec fn is_shortest_path_tree(
    n: nat,
    edges: Seq<CostEdge>,
    src: nat,
    dist: Seq<Option<u128>>,
    pred: Seq<Option<usize>>,
    rank: Seq<nat>,
) -> bool {
    &&& dist.len() == n
    &&& pred.len() == n
    &&& rank.len() == n
    &&& src < n
    &&& dist[src as int] == Some(0u128)
    &&& forall|k: int|
        0 <= k < edges.len() && (#[trigger] edges[k]).0 < n && dist[edges[k].0 as int] is Some
            ==> edges[k].1 < n && dist[edges[k].1 as int] is Some && dist[edges[k].1 as int]->0
            <= dist[edges[k].0 as int]->0 + edges[k].2
    &&& forall|y: int|
        0 <= y < n ==> ((#[trigger] pred[y] is Some) <==> (y != src && dist[y] is Some))
    &&& forall|y: int|
        0 <= y < n && #[trigger] pred[y] is Some ==> {
            let p = pred[y]->0 as int;
            &&& 0 <= p < n
            &&& dist[p] is Some
            &&& rank[p] < rank[y]
            &&& tight_edge(edges, p, y, dist[p]->0 as int, dist[y]->0 as int)
        }
}

/// `path` lists edge positions that lead, one after the other, from `src`
/// to `v`; the empty path leads from `src` to itself.
pub open spec fn is_walk(edges: Seq<CostEdge>, src: int, v: int, path: Seq<int>) -> bool
    decreases path.len(),
{
    if path.len() == 0 {
        src == v
    } else {
        let k = path.last();
        &&& 0 <= k < edges.len()
        &&& edges[k].1 == v
        &&& is_walk(edges, src, edges[k].0 as int, path.drop_last())
    }
}

/// The total cost of the edges of `path`.
pub open spec fn walk_cost(edges: Seq<CostEdge>, path: Seq<int>) -> int
    decreases path.len(),
{
    if path.len() == 0 {
        0
    } else {
        walk_cost(edges, path.drop_last()) + edges[path.last()].2
    }
}

/// In a shortest-path tree, no walk from the source is cheaper than the
/// distance of the node it ends at.
pub proof fn law_tree_distance_is_least(
    n: nat,
    edges: Seq<CostEdge>,
    src: nat,
    dist: Seq<Option<u128>>,
    pred: Seq<Option<usize>>,
    rank: Seq<nat>,
    v: int,
    path: Seq<int>,
)
    requires
        is_shortest_path_tree(n, edges, src, dist, pred, rank),
        edges_well_formed(n, edges),
        is_walk(edges, src as int, v, path),
    ensures
        0 <= v < n,
        dist[v] is Some,
        dist[v]->0 <= walk_cost(edges, path),
    decreases path.len(),
{
    if path.len() > 0 {
        let k = path.last();
        law_tree_distance_is_least(n, edges, src, dist, pred, rank, edges[k].0 as int, path.drop_last());
        assert(edges[k].0 < n);
    }
}

/// Whether `y` lies on the tree path that climbs from `from` through
/// parents towards the root.
pub open spec fn on_parent_path(pred: Seq<Option<usize>>, rank: Seq<nat>, from: int, y: int) -> bool
    decreases rank[from],
{
    if from == y {
        true
    } else if 0 <= from < pred.len() && pred[from] is Some && rank[pred[from]->0 as int] < rank[from] {
        on_parent_path(pred, rank, pred[from]->0 as int, y)
    } else {
        false
    }
}

/// The tree edges (parent, child) that lie on the paths from the nodes of
/// `starts` up to the root.
pub open spec fn path_edges(pred: Seq<Option<usize>>, rank: Seq<nat>, starts: Set<int>) -> Set<(usize, usize)> {
    Set::new(
        |pr: (usize, usize)|
            pr.1 < pred.len() && pred[pr.1 as int] == Some(pr.0) && exists|s: int|
                #[trigger] starts.contains(s) && on_parent_path(pred, rank, s, pr.1 as int),
    )
}

/// Parents lead to nodes of smaller rank, within `0..n`.
pub open spec fn parents_descend(pred: Seq<Option<usize>>, rank: Seq<nat>) -> bool {
    &&& rank.len() == pred.len()
    &&& forall|y: int|
        0 <= y < pred.len() && #[trigger] pred[y] is Some ==> pred[y]->0 < pred.len() && rank[pred[y]->0 as int]
            < rank[y]
}

proof fn lemma_path_rank(pred: Seq<Option<usize>>, rank: Seq<nat>, x: int, y: int)
    requires
        parents_descend(pred, rank),
        0 <= x < pred.len(),
        on_parent_path(pred, rank, x, y),
    ensures
        0 <= y < pred.len(),
        rank[y] <= rank[x],
    decreases rank[x],
{
    if x != y {
        lemma_path_rank(pred, rank, pred[x]->0 as int, y);
    }
}

proof fn lemma_path_extend(pred: Seq<Option<usize>>, rank: Seq<nat>, x: int, y: int)
    requires
        parents_descend(pred, rank),
        0 <= x < pred.len(),
        0 <= y < pred.len(),
        on_parent_path(pred, rank, x, y),
        pred[y] is Some,
    ensures
        on_parent_path(pred, rank, x, pred[y]->0 as int),
    decreases rank[x],
{
    if x != y {
        lemma_path_extend(pred, rank, pred[x]->0 as int, y);
    } else {
        let p = pred[y]->0 as int;
        assert(on_parent_path(pred, rank, p, p));
    }
}

/// Collects the tree edges on the paths from every node of `starts` up to
/// the root `src`.
pub fn collect_path_edges(
    pred: &Vec<Option<usize>>,
    src: usize,
    starts: &Vec<usize>,
    Ghost(rank): Ghost<Seq<nat>>,
) -> (pairs: Vec<(usize, usize)>)
    requires
        parents_descend(pred@, rank),
        src < pred@.len(),
        !(pred@[src as int] is Some),
        forall|k: int| 0 <= k < starts@.len() ==> #[trigger] starts@[k] < pred@.len(),
    ensures
        seq_elems(pairs@) == path_edges(pred@, rank, seq_elems(as_ints(starts@))),
        pairs@.no_duplicates(),
{
    let ghost all_starts = as_ints(starts@);
    let mut pairs: Vec<(usize, usize)> = Vec::new();
    let mut t: usize = 0;
    assert(seq_elems(all_starts.take(0)) =~= Set::<int>::empty());
    assert(path_edges(pred@, rank, Set::<int>::empty()) =~= Set::<(usize, usize)>::empty());
    assert(seq_elems(pairs@) =~= Set::<(usize, usize)>::empty());
    while t < starts.len()
        invariant
            parents_descend(pred@, rank),
            src < pred@.len(),
            !(pred@[src as int] is Some),
            forall|k: int| 0 <= k < starts@.len() ==> #[trigger] starts@[k] < pred@.len(),
            all_starts == as_ints(starts@),
            t <= starts@.len(),
            seq_elems(pairs@) == path_edges(pred@, rank, seq_elems(all_starts.take(t as int))),
            pairs@.no_duplicates(),
        decreases starts@.len() - t,
    {
        let s = starts[t];
        let ghost done_starts = seq_elems(all_starts.take(t as int));
        let ghost before = path_edges(pred@, rank, done_starts);
        let mut cur = s;
        // the edges on the path from `s` below `cur`
        let ghost climbed = |pr: (usize, usize)|
            pr.1 < pred@.len() && pred@[pr.1 as int] == Some(pr.0) && on_parent_path(pred@, rank, s as int, pr.1 as int)
                && !on_parent_path(pred@, rank, cur as int, pr.1 as int);
        assert(seq_elems(pairs@) =~= before.union(Set::new(climbed)));
        loop
            invariant
                parents_descend(pred@, rank),
                src < pred@.len(),
                !(pred@[src as int] is Some),
                s < pred@.len(),
                cur < pred@.len(),
                on_parent_path(pred@, rank, s as int, cur as int),
                pairs@.no_duplicates(),
                seq_elems(pairs@) == before.union(
                    Set::new(
                        |pr: (usize, usize)|
                            pr.1 < pred@.len() && pred@[pr.1 as int] == Some(pr.0) && on_parent_path(
                                pred@,
                                rank,
                                s as int,
                                pr.1 as int,
                            ) && !on_parent_path(pred@, rank, cur as int, pr.1 as int),
                    ),
                ),
            ensures
                seq_elems(pairs@) == before.union(
                    Set::new(
                        |pr: (usize, usize)|
                            pr.1 < pred@.len() && pred@[pr.1 as int] == Some(pr.0) && on_parent_path(
                                pred@,
                                rank,
                                s as int,
                                pr.1 as int,
                            ),
                    ),
                ),
                pairs@.no_duplicates(),
            decreases rank[cur as int],
        {
            let ghost old_set = Set::new(
                |pr: (usize, usize)|
                    pr.1 < pred@.len() && pred@[pr.1 as int] == Some(pr.0) && on_parent_path(
                        pred@,
                        rank,
                        s as int,
                        pr.1 as int,
                    ) && !on_parent_path(pred@, rank, cur as int, pr.1 as int),
            );
            let ghost full = Set::new(
                |pr: (usize, usize)|
                    pr.1 < pred@.len() && pred@[pr.1 as int] == Some(pr.0) && on_parent_path(
                        pred@,
                        rank,
                        s as int,
                        pr.1 as int,
                    ),
            );
            match pred[cur] {
                None => {
                    proof {
                        assert forall|pr: (usize, usize)| full.contains(pr) implies old_set.contains(pr) by {
                            if on_parent_path(pred@, rank, cur as int, pr.1 as int) {
                                assert(pr.1 == cur);
                            }
                        }
                        assert(full =~= old_set);
                    }
                    break;
                },
                Some(p) => {
                    let ghost pairs_before = pairs@;
                    let mut present = false;
                    let mut k: usize = 0;
                    while k < pairs.len()
                        invariant
                            k <= pairs@.len(),
                            present == exists|l: int| 0 <= l < k && pairs@[l] == (p, cur),
                        decreases pairs@.len() - k,
                    {
                        if pairs[k].0 == p && pairs[k].1 == cur {
                            present = true;
                        }
                        k = k + 1;
                    }
                    if !present {
                        pairs.push((p, cur));
                        proof {
                            lemma_seq_elems_push(pairs_before, (p, cur));
                            assert forall|i: int, j: int| 0 <= i < pairs@.len() && 0 <= j < pairs@.len() && i != j implies pairs@[i] != pairs@[j] by {
                                if i < pairs_before.len() && j < pairs_before.len() {
                                } else if i < pairs_before.len() {
                                    assert(pairs@[j] == (p, cur));
                                } else {
                                    assert(pairs@[i] == (p, cur));
                                }
                            }
                        }
                    } else {
                        assert(seq_elems(pairs@).insert((p, cur)) =~= seq_elems(pairs@));
                    }
                    let ghost new_set = Set::new(
                        |pr: (usize, usize)|
                            pr.1 < pred@.len() && pred@[pr.1 as int] == Some(pr.0) && on_parent_path(
                                pred@,
                                rank,
                                s as int,
                                pr.1 as int,
                            ) && !on_parent_path(pred@, rank, p as int, pr.1 as int),
                    );
                    proof {
                        assert(rank[p as int] < rank[cur as int]);
                        assert forall|pr: (usize, usize)| new_set.contains(pr) <==> old_set.insert((p, cur)).contains(pr) by {
                            let y = pr.1 as int;
                            if y < pred@.len() {
                                // on the path from cur: cur itself, or on the path from its parent
                                assert(on_parent_path(pred@, rank, cur as int, y) == (cur == y
                                    || on_parent_path(pred@, rank, p as int, y)));
                                if on_parent_path(pred@, rank, p as int, cur as int) {
                                    lemma_path_rank(pred@, rank, p as int, cur as int);
                                }
                            }
                        }
                        assert(new_set =~= old_set.insert((p, cur)));
                        assert(before.union(old_set).insert((p, cur)) =~= before.union(new_set));
                    }
                    proof {
                        lemma_path_extend(pred@, rank, s as int, cur as int);
                    }
                    cur = p;
                    if cur == src {
                        proof {
                            let cur_set = new_set;
                            assert forall|pr: (usize, usize)| full.contains(pr) implies cur_set.contains(pr) by {
                                if on_parent_path(pred@, rank, cur as int, pr.1 as int) {
                                    assert(pr.1 == cur);
                                }
                            }
                            assert(full =~= cur_set);
                        }
                        break;
                    }
                },
            }
        }
        proof {
            let next = seq_elems(all_starts.take(t + 1));
            assert(all_starts.take(t + 1) =~= all_starts.take(t as int).push(s as int));
            lemma_seq_elems_push(all_starts.take(t as int), s as int);
            assert(next.contains(s as int));
            assert forall|pr: (usize, usize)| path_edges(pred@, rank, next).contains(pr) <==> seq_elems(pairs@).contains(pr) by {
                if path_edges(pred@, rank, next).contains(pr) {
                    let w = choose|w: int| #[trigger] next.contains(w) && on_parent_path(pred@, rank, w, pr.1 as int);
                    if w != s as int {
                        assert(done_starts.contains(w));
                        assert(before.contains(pr));
                    }
                }
                if seq_elems(pairs@).contains(pr) {
                    if before.contains(pr) {
                        let w = choose|w: int| #[trigger] done_starts.contains(w) && on_parent_path(pred@, rank, w, pr.1 as int);
                        assert(next.contains(w));
                    }
                }
            }
            assert(path_edges(pred@, rank, next) =~= seq_elems(pairs@));
        }
        t = t + 1;
    }
    assert(all_starts.take(starts@.len() as int) =~= all_starts);
    pairs
}

/// Positions read as integers.
pub open spec fn as_ints(s: Seq<usize>) -> Seq<int> {
    s.map_values(|x: usize| x as int)
}

/// The set of elements of a sequence.
pub open spec fn seq_elems<A>(s: Seq<A>) -> Set<A> {
    Set::new(|x: A| exists|i: int| 0 <= i < s.len() && s[i] == x)
}

pub proof fn lemma_seq_elems_push<A>(s: Seq<A>, x: A)
    ensures
        seq_elems(s.push(x)) == seq_elems(s).insert(x),
{
    assert forall|y: A| seq_elems(s.push(x)).contains(y) <==> seq_elems(s).insert(x).contains(y) by {
        if seq_elems(s).contains(y) {
            let i = choose|i: int| 0 <= i < s.len() && s[i] == y;
            assert(s.push(x)[i] == y);
        }
        if y == x {
            assert(s.push(x)[s.len() as int] == y);
        }
        if seq_elems(s.push(x)).contains(y) {
            let i = choose|i: int| 0 <= i < s.len() + 1 && s.push(x)[i] == y;
            if i < s.len() {
                assert(s[i] == y);
            }
        }
    }
    assert(seq_elems(s.push(x)) =~= seq_elems(s).insert(x));
}

/// Whether `x` occurs in `v`.
pub fn contains_index(v: &Vec<usize>, x: usize) -> (found: bool)
    ensures
        found == seq_elems(v@).contains(x),
{
    let mut k: usize = 0;
    while k < v.len()
        invariant
            k <= v@.len(),
            forall|l: int| 0 <= l < k ==> v@[l] != x,
        decreases v@.len() - k,
    {
        if v[k] == x {
            return true;
        }
        k = k + 1;
    }
    false
}

/// Groups (relay, next) pairs by relay: each relay once, with its next hops.
pub fn group_by_relay(pairs: &Vec<(usize, usize)>) -> (groups: Vec<(usize, Vec<usize>)>)
    requires
        pairs@.no_duplicates(),
    ensures
        forall|i: int, j: int| 0 <= i < groups@.len() && 0 <= j < groups@.len() && i != j ==> (#[trigger] groups@[i]).0 != (#[trigger] groups@[j]).0,
        forall|i: int| 0 <= i < groups@.len() ==> (#[trigger] groups@[i]).1@.len() > 0 && groups@[i].1@.no_duplicates(),
        forall|u: usize, y: usize|
            #[trigger] seq_elems(pairs@).contains((u, y)) <==> exists|i: int, j: int|
                0 <= i < groups@.len() && 0 <= j < groups@[i].1@.len() && groups@[i].0 == u && #[trigger] groups@[i].1@[j] == y,
{
    let mut relays: Vec<usize> = Vec::new();
    let mut k: usize = 0;
    while k < pairs.len()
        invariant
            k <= pairs@.len(),
            relays@.no_duplicates(),
            forall|r: usize| #[trigger] seq_elems(relays@).contains(r) <==> exists|l: int| 0 <= l < k && pairs@[l].0 == r,
        decreases pairs@.len() - k,
    {
        let r = pairs[k].0;
        if !contains_index(&relays, r) {
            let ghost before = relays@;
            relays.push(r);
            proof {
                lemma_seq_elems_push(before, r);
                assert forall|i: int, j: int| 0 <= i < relays@.len() && 0 <= j < relays@.len() && i != j implies relays@[i] != relays@[j] by {
                    if i < before.len() && j < before.len() {
                    } else if i < before.len() {
                        assert(seq_elems(before).contains(relays@[i]));
                    } else {
                        assert(seq_elems(before).contains(relays@[j]));
                    }
                }
            }
        }
        proof {
            assert forall|r2: usize| #[trigger] seq_elems(relays@).contains(r2) <==> exists|l: int| 0 <= l < k + 1 && pairs@[l].0 == r2 by {
                if seq_elems(relays@).contains(r2) && r2 != r {
                    assert(exists|l: int| 0 <= l < k && pairs@[l].0 == r2);
                }
                if r2 == r {
                    assert(seq_elems(relays@).contains(r));
                }
            }
        }
        k = k + 1;
    }
    let mut groups: Vec<(usize, Vec<usize>)> = Vec::new();
    let mut i: usize = 0;
    while i < relays.len()
        invariant
            i <= relays@.len(),
            pairs@.no_duplicates(),
            relays@.no_duplicates(),
            forall|r: usize| #[trigger] seq_elems(relays@).contains(r) <==> exists|l: int| 0 <= l < pairs@.len() && pairs@[l].0 == r,
            groups@.len() == i,
            forall|g: int| 0 <= g < i ==> (#[trigger] groups@[g]).0 == relays@[g],
            forall|g: int| 0 <= g < i ==> (#[trigger] groups@[g]).1@.len() > 0 && groups@[g].1@.no_duplicates(),
            forall|g: int, y: usize|
                0 <= g < i ==> (#[trigger] seq_elems(groups@[g].1@).contains(y) <==> seq_elems(pairs@).contains((relays@[g], y))),
        decreases relays@.len() - i,
    {
        let r = relays[i];
        let mut kids: Vec<usize> = Vec::new();
        let mut l: usize = 0;
        while l < pairs.len()
            invariant
                l <= pairs@.len(),
                pairs@.no_duplicates(),
                kids@.no_duplicates(),
                forall|y: usize| #[trigger] seq_elems(kids@).contains(y) <==> exists|m: int| 0 <= m < l && pairs@[m] == (r, y),
            decreases pairs@.len() - l,
        {
            if pairs[l].0 == r {
                let y = pairs[l].1;
                let ghost before = kids@;
                kids.push(y);
                proof {
                    lemma_seq_elems_push(before, y);
                    assert(!seq_elems(before).contains(y)) by {
                        if seq_elems(before).contains(y) {
                            let m = choose|m: int| 0 <= m < l && pairs@[m] == (r, y);
                            assert(pairs@[m] == pairs@[l as int]);
                        }
                    }
                    assert forall|a: int, b: int| 0 <= a < kids@.len() && 0 <= b < kids@.len() && a != b implies kids@[a] != kids@[b] by {
                        if a < before.len() && b < before.len() {
                        } else if a < before.len() {
                            assert(seq_elems(before).contains(kids@[a]));
                        } else {
                            assert(seq_elems(before).contains(kids@[b]));
                        }
                    }
                }
            }
            proof {
                assert forall|y: usize| #[trigger] seq_elems(kids@).contains(y) <==> exists|m: int| 0 <= m < l + 1 && pairs@[m] == (r, y) by {
                    if exists|m: int| 0 <= m < l + 1 && pairs@[m] == (r, y) {
                        let m = choose|m: int| 0 <= m < l + 1 && pairs@[m] == (r, y);
                        if m == l {
                            assert(seq_elems(kids@).contains(y));
                        }
                    }
                }
            }
            l = l + 1;
        }
        proof {
            assert(relays@[i as int] == r);
            assert(seq_elems(relays@).contains(r));
            let m = choose|m: int| 0 <= m < pairs@.len() && pairs@[m].0 == r;
            assert(pairs@[m] == (r, pairs@[m].1));
            assert(seq_elems(kids@).contains(pairs@[m].1));
            assert forall|y: usize| #[trigger] seq_elems(kids@).contains(y) <==> seq_elems(pairs@).contains((r, y)) by {
            }
        }
        let ghost gs = groups@;
        groups.push((r, kids));
        proof {
            assert forall|g: int, y: usize|
                0 <= g < i + 1 implies (#[trigger] seq_elems(groups@[g].1@).contains(y) <==> seq_elems(pairs@).contains((relays@[g], y))) by {
                if g < i {
                    assert(groups@[g] == gs[g]);
                }
            }
        }
        i = i + 1;
    }
    proof {
        assert forall|u: usize, y: usize|
            #[trigger] seq_elems(pairs@).contains((u, y)) <==> exists|g: int, j: int|
                0 <= g < groups@.len() && 0 <= j < groups@[g].1@.len() && groups@[g].0 == u && #[trigger] groups@[g].1@[j] == y by {
            if seq_elems(pairs@).contains((u, y)) {
                let l = choose|l: int| 0 <= l < pairs@.len() && pairs@[l] == (u, y);
                assert(pairs@[l].0 == u);
                assert(seq_elems(relays@).contains(u));
                let g = choose|g: int| 0 <= g < relays@.len() && relays@[g] == u;
                assert(seq_elems(groups@[g].1@).contains(y));
                let j = choose|j: int| 0 <= j < groups@[g].1@.len() && groups@[g].1@[j] == y;
                assert(groups@[g].0 == u && groups@[g].1@[j] == y);
            }
            if exists|g: int, j: int|
                0 <= g < groups@.len() && 0 <= j < groups@[g].1@.len() && groups@[g].0 == u && #[trigger] groups@[g].1@[j] == y {
                let (g, j) = choose|g: int, j: int|
                    0 <= g < groups@.len() && 0 <= j < groups@[g].1@.len() && groups@[g].0 == u && #[trigger] groups@[g].1@[j] == y;
                assert(seq_elems(groups@[g].1@).contains(y));
            }
        }
    }
    groups
}

/// Every edge has both endpoints below `n` and a cost below the limit.
pub open spec fn edges_well_formed(n: nat, edges: Seq<CostEdge>) -> bool {
    forall|k: int|
        0 <= k < edges.len() ==> (#[trigger] edges[k]).0 < n && edges[k].1 < n && edges[k].2
            < EDGE_COST_LIMIT
}

/// Computes a shortest-path tree from `src`.
pub fn shortest_path_tree(n: usize, edges: &Vec<CostEdge>, src: usize) -> (res: (
    Vec<Option<u128>>,
    Vec<Option<usize>>,
))
    requires
        src < n,
        edges_well_formed(n as nat, edges@),
    ensures
        exists|rank: Seq<nat>|
            #[trigger] is_shortest_path_tree(n as nat, edges@, src as nat, res.0@, res.1@, rank),
{
    let mut dist: Vec<Option<u128>> = Vec::new();
    let mut pred: Vec<Option<usize>> = Vec::new();
    let mut done: Vec<bool> = Vec::new();
    let mut i: usize = 0;
    while i < n
        invariant
            i <= n,
            dist@.len() == i,
            pred@.len() == i,
            done@.len() == i,
            forall|j: int| 0 <= j < i ==> dist@[j] == None::<u128>,
            forall|j: int| 0 <= j < i ==> pred@[j] == None::<usize>,
            forall|j: int| 0 <= j < i ==> done@[j] == false,
        decreases n - i,
    {
        dist.push(None);
        pred.push(None);
        done.push(false);
        i = i + 1;
    }
    dist.set(src, Some(0u128));
    let ghost mut rank: Seq<nat> = Seq::new(n as nat, |j: int| 0nat);
    let mut count: usize = 0;
    assert(Set::new(|u: int| 0 <= u < n && done@[u]) =~= Set::<int>::empty());
    let ghost limit: int = EDGE_COST_LIMIT as int;
    loop
        invariant_except_break
            count <= n,
        invariant
            src < n,
            edges_well_formed(n as nat, edges@),
            limit == EDGE_COST_LIMIT as int,
            dist@.len() == n,
            pred@.len() == n,
            done@.len() == n,
            rank.len() == n,
            dist@[src as int] == Some(0u128),
            // every edge out of a finished node is relaxed
            forall|k: int|
                0 <= k < edges@.len() && done@[(#[trigger] edges@[k]).0 as int] ==> dist@[edges@[k].1 as int] is Some
                    && dist@[edges@[k].1 as int]->0 <= dist@[edges@[k].0 as int]->0 + edges@[k].2,
            forall|y: int| 0 <= y < n ==> ((#[trigger] pred@[y] is Some) <==> (y != src && dist@[y] is Some)),
            forall|y: int|
                0 <= y < n && #[trigger] pred@[y] is Some ==> {
                    let p = pred@[y]->0 as int;
                    &&& 0 <= p < n
                    &&& done@[p]
                    &&& rank[p] < count
                    &&& (done@[y] ==> rank[p] < rank[y])
                    &&& tight_edge(edges@, p, y, dist@[p]->0 as int, dist@[y]->0 as int)
                },
            forall|u: int| 0 <= u < n && #[trigger] done@[u] ==> dist@[u] is Some && rank[u] < count,
            forall|u: int, v: int|
                0 <= u < n && 0 <= v < n && #[trigger] done@[u] && !#[trigger] done@[v] && dist@[v] is Some
                    ==> dist@[u]->0 <= dist@[v]->0,
            forall|v: int| 0 <= v < n && #[trigger] dist@[v] is Some ==> dist@[v]->0 <= count * limit,
            forall|u: int| 0 <= u < n && #[trigger] done@[u] ==> u < n,
            count <= n,
            // the finished nodes are counted
            Set::new(|u: int| 0 <= u < n && done@[u]).finite(),
            Set::new(|u: int| 0 <= u < n && done@[u]).len() == count,
        ensures
            forall|v: int| 0 <= v < n && #[trigger] dist@[v] is Some ==> done@[v],
        decreases n - count,
    {
        // select the unfinished reached node of least distance
        let mut best: Option<usize> = None;
        let mut j: usize = 0;
        while j < n
            invariant
                j <= n,
                dist@.len() == n,
                done@.len() == n,
                match best {
                    Some(b) => b < j && !done@[b as int] && dist@[b as int] is Some && forall|v: int|
                        0 <= v < j && !done@[v] && #[trigger] dist@[v] is Some ==> dist@[b as int]->0
                            <= dist@[v]->0,
                    None => forall|v: int| 0 <= v < j && !done@[v] ==> #[trigger] dist@[v] == None::<u128>,
                },
            decreases n - j,
        {
            if !done[j] {
                match dist[j] {
                    Some(d) => {
                        match best {
                            Some(b) => {
                                let db = dist[b].unwrap();
                                if d < db {
                                    best = Some(j);
                                }
                            },
                            None => {
                                best = Some(j);
                            },
                        }
                    },
                    None => {},
                }
            }
            j = j + 1;
        }
        let x = match best {
            Some(b) => b,
            None => {
                break ;
            },
        };
        let ghost done_before = Set::new(|u: int| 0 <= u < n && done@[u]);
        proof {
            // the unfinished node x is not yet counted, so count < n
            let all = Set::new(|u: int| 0 <= u < n);
            vstd::set_lib::lemma_int_range(0, n as int);
            assert(Set::new(|u: int| 0 <= u < n) =~= vstd::set_lib::set_int_range(0, n as int));
            vstd::set_lib::lemma_len_subset(done_before.insert(x as int), all);
        }
        let dx = dist[x].unwrap();
        done.set(x, true);
        proof {
            rank = rank.update(x as int, count as nat);
            assert(Set::new(|u: int| 0 <= u < n && done@[u]) =~= done_before.insert(x as int));
        }
        count = count + 1;
        let ghost dist_before = dist@;
        let mut k: usize = 0;
        while k < edges.len()
            invariant
                k <= edges@.len(),
                src < n,
                x < n,
                done@[x as int],
                rank.len() == n,
                rank[x as int] == count - 1,
                edges_well_formed(n as nat, edges@),
                limit == EDGE_COST_LIMIT as int,
                dist@.len() == n,
                pred@.len() == n,
                done@.len() == n,
                dist@[x as int] == Some(dx),
                dist_before[x as int] == Some(dx),
                dist_before.len() == n,
                dx <= (count - 1) * limit,
                dist@[src as int] == Some(0u128),
                forall|v: int|
                    0 <= v < n && dist_before[v] is Some ==> dist@[v] is Some && #[trigger] dist@[v]->0
                        <= dist_before[v]->0,
                forall|v: int| 0 <= v < n && #[trigger] dist@[v] is Some ==> dist_before[v] is Some || dist@[v]->0 >= dx,
                forall|v: int|
                    0 <= v < n && #[trigger] dist@[v] != dist_before[v] ==> dist@[v]->0 >= dx && !done@[v]
                        && pred@[v] == Some(x),
                forall|kk: int|
                    0 <= kk < k && (#[trigger] edges@[kk]).0 == x ==> dist@[edges@[kk].1 as int] is Some
                        && dist@[edges@[kk].1 as int]->0 <= dx + edges@[kk].2,
                forall|kk: int|
                    0 <= kk < edges@.len() && done@[(#[trigger] edges@[kk]).0 as int] && edges@[kk].0 != x
                        ==> dist@[edges@[kk].1 as int] is Some && dist@[edges@[kk].1 as int]->0
                        <= dist@[edges@[kk].0 as int]->0 + edges@[kk].2,
                forall|y: int| 0 <= y < n ==> ((#[trigger] pred@[y] is Some) <==> (y != src && dist@[y] is Some)),
                forall|y: int|
                    0 <= y < n && #[trigger] pred@[y] is Some ==> {
                        let p = pred@[y]->0 as int;
                        &&& 0 <= p < n
                        &&& done@[p]
                        &&& rank[p] < count
                        &&& (done@[y] ==> rank[p] < rank[y])
                        &&& tight_edge(edges@, p, y, dist@[p]->0 as int, dist@[y]->0 as int)
                    },
                forall|u: int| 0 <= u < n && #[trigger] done@[u] ==> dist@[u] is Some && rank[u] < count,
                forall|u: int| 0 <= u < n && #[trigger] done@[u] ==> dist@[u] == dist_before[u],
                forall|u: int|
                    0 <= u < n && #[trigger] done@[u] ==> dist@[u]->0 <= dx,
                forall|u: int, v: int|
                    0 <= u < n && 0 <= v < n && #[trigger] done@[u] && !#[trigger] done@[v] && dist_before[v] is Some
                        ==> dist@[u]->0 <= dist_before[v]->0,
                forall|v: int| 0 <= v < n && #[trigger] dist@[v] is Some ==> dist@[v]->0 <= count * limit,
            decreases edges@.len() - k,
        {
            let (a, b, c) = edges[k];
            if a == x {
                let nd: u128 = dx + c as u128;
                let better = match dist[b] {
                    Some(db) => nd < db,
                    None => true,
                };
                if better {
                    proof {
                        // a finished node already holds its least distance
                        if done@[b as int] {
                            assert(dist@[b as int]->0 <= dx);
                        }
                        if b == src {
                            assert(dist@[src as int]->0 == 0);
                        }
                    }
                    dist.set(b, Some(nd));
                    pred.set(b, Some(x));
                    proof {
                        assert(tight_edge(edges@, x as int, b as int, dx as int, nd as int)) by {
                            assert(edges@[k as int].0 == x && edges@[k as int].1 == b);
                        }
                    }
                }
            }
            k = k + 1;
        }
        proof {
            assert forall|kk: int|
                0 <= kk < edges@.len() && done@[(#[trigger] edges@[kk]).0 as int] implies dist@[edges@[kk].1 as int] is Some
                    && dist@[edges@[kk].1 as int]->0 <= dist@[edges@[kk].0 as int]->0 + edges@[kk].2 by {
                if edges@[kk].0 == x {
                }
            }
            assert forall|u: int, v: int|
                0 <= u < n && 0 <= v < n && #[trigger] done@[u] && !#[trigger] done@[v] && dist@[v] is Some
                    implies dist@[u]->0 <= dist@[v]->0 by {
                if dist@[v] == dist_before[v] {
                    if u != x {
                        assert(dist_before[u]->0 <= dist_before[x as int]->0);
                    }
                }
            }
        }
    }
    proof {
        assert forall|y: int| 0 <= y < n && #[trigger] pred@[y] is Some implies rank[pred@[y]->0 as int] < rank[y] by {
            assert(done@[y]);
        }
        assert(is_shortest_path_tree(n as nat, edges@, src as nat, dist@, pred@, rank));
        assert(exists|rk: Seq<nat>| #[trigger] is_shortest_path_tree(n as nat, edges@, src as nat, dist@, pred@, rk));
    }
    let ghost dv = dist@;
    let ghost pv = pred@;
    let res = (dist, pred);
    assert(res.0@ == dv && res.1@ == pv);
    res
}

} // verus!
