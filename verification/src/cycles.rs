//! Cycle search and cycle cancellation over the obligation graph of one symbol.
//!
//! Obligation `i` is an edge from its deliverer to its receiver; it is live
//! while its net quantity is positive.
//!
//! The depth-first search scans the obligation list for the edges leaving an
//! account and keeps its visited accounts in a `Vec`, rather than building a
//! hash-map adjacency and a hash set: the search then goes through accounts
//! and edges in list order, which its contract and termination proof can
//! follow, where a hash map's walk order would be left open.
use vstd::prelude::*;

use crate::netting::NetObligation;

verus! {

broadcast use vstd::seq_lib::group_seq_properties;

// ── Walks, simple walks and cycles ────────────────────────────────────

/// Edge `i` exists and carries a positive quantity.
pub open spec fn live(obs: Seq<NetObligation>, i: int) -> bool {
    0 <= i < obs.len() && obs[i].net_quantity > 0
}

/// `p` is a chain of live edges leading from account `from` to account `to`
/// (the empty chain leads from an account to itself).
pub open spec fn is_walk(obs: Seq<NetObligation>, p: Seq<usize>, from: u64, to: u64) -> bool
    decreases p.len(),
{
    if p.len() == 0 {
        from == to
    } else {
        &&& live(obs, p[0] as int)
        &&& obs[p[0] as int].deliverer_id == from
        &&& is_walk(obs, p.drop_first(), obs[p[0] as int].receiver_id, to)
    }
}

/// Account the `k`-th edge of `p` leaves from.
pub open spec fn source(obs: Seq<NetObligation>, p: Seq<usize>, k: int) -> u64 {
    obs[p[k] as int].deliverer_id
}

/// No account is left twice along `p`.
pub open spec fn simple(obs: Seq<NetObligation>, p: Seq<usize>) -> bool {
    forall|a: int, b: int| 0 <= a < b < p.len() ==> source(obs, p, a) != source(obs, p, b)
}

/// No edge of `p` leaves an account listed in `vis`.
pub open spec fn avoids(obs: Seq<NetObligation>, p: Seq<usize>, vis: Seq<u64>) -> bool {
    forall|k: int| 0 <= k < p.len() ==> !vis.contains(#[trigger] source(obs, p, k))
}

/// `c` is a cycle: a non-empty simple walk that returns to the account it
/// leaves first.
pub open spec fn is_cycle(obs: Seq<NetObligation>, c: Seq<usize>) -> bool {
    &&& c.len() > 0
    &&& is_walk(obs, c, source(obs, c, 0), source(obs, c, 0))
    &&& simple(obs, c)
}

/// No cycle of live edges exists.
pub open spec fn acyclic(obs: Seq<NetObligation>) -> bool {
    forall|c: Seq<usize>| !is_cycle(obs, c)
}

/// What the depth-first search from `current` looks for: a simple walk to
/// `target` that avoids `vis` and does not pass through `target` on the way
/// (except at its first edge when the search starts at `target`).
pub open spec fn search_goal(
    obs: Seq<NetObligation>,
    q: Seq<usize>,
    current: u64,
    target: u64,
    vis: Seq<u64>,
    is_start: bool,
) -> bool {
    &&& is_walk(obs, q, current, target)
    &&& simple(obs, q)
    &&& avoids(obs, q, vis)
    &&& forall|k: int| 0 <= k < q.len() && (k > 0 || !is_start) ==> source(obs, q, k) != target
    &&& is_start ==> q.len() > 0
}

/// Number of edges whose source account is not in `vis`.
pub open spec fn unvisited(obs: Seq<NetObligation>, vis: Seq<u64>) -> nat
    decreases obs.len(),
{
    if obs.len() == 0 {
        0
    } else {
        unvisited(obs.drop_last(), vis) + if vis.contains(obs.last().deliverer_id) {
            0nat
        } else {
            1nat
        }
    }
}

proof fn lemma_unvisited_drops(obs: Seq<NetObligation>, vis: Seq<u64>, c: u64, i: int)
    requires
        0 <= i < obs.len(),
        obs[i].deliverer_id == c,
        !vis.contains(c),
    ensures
        unvisited(obs, vis.push(c)) < unvisited(obs, vis),
    decreases obs.len(),
{
    lemma_unvisited_mono(obs.drop_last(), vis, c);
    if i < obs.len() - 1 {
        lemma_unvisited_drops(obs.drop_last(), vis, c, i);
    }
    assert(vis.push(c).contains(c));
    if vis.contains(obs.last().deliverer_id) {
        assert(vis.push(c).contains(obs.last().deliverer_id));
    }
}

proof fn lemma_unvisited_mono(obs: Seq<NetObligation>, vis: Seq<u64>, c: u64)
    ensures
        unvisited(obs, vis.push(c)) <= unvisited(obs, vis),
    decreases obs.len(),
{
    if obs.len() > 0 {
        lemma_unvisited_mono(obs.drop_last(), vis, c);
        if vis.contains(obs.last().deliverer_id) {
            assert(vis.push(c).contains(obs.last().deliverer_id));
        }
    }
}

fn contains_account(v: &Vec<u64>, x: u64) -> (r: bool)
    ensures
        r == v@.contains(x),
{
    let mut i: usize = 0;
    while i < v.len()
        invariant
            i <= v@.len(),
            forall|j: int| 0 <= j < i ==> v@[j] != x,
        decreases v@.len() - i,
    {
        if v[i] == x {
            return true;
        }
        i = i + 1;
    }
    false
}

/// Recursive depth-first search for a simple path from `current` back to
/// `target`, recording the edges taken in `path_edges`.
fn dfs_find_cycle(
    obs: &Vec<NetObligation>,
    current: u64,
    target: u64,
    visited: &mut Vec<u64>,
    path_edges: &mut Vec<usize>,
    is_start: bool,
) -> (found: bool)
    ensures
        found ==> exists|q: Seq<usize>|
            #![trigger search_goal(obs@, q, current, target, old(visited)@, is_start)]
            final(path_edges)@ == old(path_edges)@ + q && search_goal(
                obs@,
                q,
                current,
                target,
                old(visited)@,
                is_start,
            ),
        !found ==> final(path_edges)@ == old(path_edges)@ && final(visited)@ == old(visited)@,
        !found ==> forall|q: Seq<usize>|
            !#[trigger] search_goal(obs@, q, current, target, old(visited)@, is_start),
    decreases unvisited(obs@, old(visited)@),
{
    let ghost vis0 = visited@;
    let ghost path0 = path_edges@;
    if !is_start && current == target {
        assert(path_edges@ == path0 + Seq::<usize>::empty());
        assert(search_goal(obs@, Seq::<usize>::empty(), current, target, vis0, is_start));
        return true;
    }
    if contains_account(visited, current) {
        assert forall|q: Seq<usize>| !#[trigger] search_goal(obs@, q, current, target, vis0, is_start) by {
            if search_goal(obs@, q, current, target, vis0, is_start) {
                if q.len() > 0 {
                    assert(!vis0.contains(source(obs@, q, 0)));
                }
            }
        }
        return false;
    }
    visited.push(current);
    let n = obs.len();
    let mut i: usize = 0;
    while i < n
        invariant
            n == obs@.len(),
            i <= n,
            vis0 == old(visited)@,
            path0 == old(path_edges)@,
            !vis0.contains(current),
            !is_start ==> current != target,
            visited@ == vis0.push(current),
            path_edges@ == path0,
            forall|q: Seq<usize>|
                #![trigger search_goal(obs@, q, current, target, vis0, is_start)]
                search_goal(obs@, q, current, target, vis0, is_start) && q.len() > 0 ==> q[0] >= i,
        decreases n - i,
    {
        if obs[i].deliverer_id == current && obs[i].net_quantity > 0 {
            path_edges.push(i);
            let next = obs[i].receiver_id;
            proof {
                lemma_unvisited_drops(obs@, vis0, current, i as int);
            }
            let ghost vis1 = visited@;
            let ghost path1 = path_edges@;
            if dfs_find_cycle(obs, next, target, visited, path_edges, false) {
                proof {
                    let qt = choose|qt: Seq<usize>|
                        #![trigger search_goal(obs@, qt, next, target, vis1, false)]
                        path_edges@ == path1 + qt && search_goal(obs@, qt, next, target, vis1, false);
                    let q = seq![i].add(qt);
                    assert(q.drop_first() =~= qt);
                    assert(path_edges@ =~= path0 + q);
                    assert forall|a: int, b: int| 0 <= a < b < q.len() implies source(obs@, q, a)
                        != source(obs@, q, b) by {
                        if a == 0 {
                            assert(source(obs@, q, b) == source(obs@, qt, b - 1));
                            assert(!vis1.contains(source(obs@, qt, b - 1)));
                            assert(vis1.contains(current));
                        } else {
                            assert(source(obs@, q, a) == source(obs@, qt, a - 1));
                            assert(source(obs@, q, b) == source(obs@, qt, b - 1));
                        }
                    }
                    assert forall|k: int| 0 <= k < q.len() implies !vis0.contains(
                        #[trigger] source(obs@, q, k),
                    ) by {
                        if k > 0 {
                            assert(source(obs@, q, k) == source(obs@, qt, k - 1));
                            assert(!vis1.contains(source(obs@, qt, k - 1)));
                            if vis0.contains(source(obs@, q, k)) {
                                let w = choose|w: int|
                                    0 <= w < vis0.len() && vis0[w] == source(obs@, q, k);
                                assert(vis1[w] == vis0[w]);
                            }
                        }
                    }
                    assert forall|k: int| 0 <= k < q.len() && (k > 0 || !is_start) implies source(
                        obs@,
                        q,
                        k,
                    ) != target by {
                        if k > 0 {
                            assert(source(obs@, q, k) == source(obs@, qt, k - 1));
                        }
                    }
                    assert(search_goal(obs@, q, current, target, vis0, is_start));
                }
                return true;
            }
            path_edges.pop();
            proof {
                assert(path_edges@ =~= path0);
                assert forall|q: Seq<usize>|
                    #![trigger search_goal(obs@, q, current, target, vis0, is_start)]
                    search_goal(obs@, q, current, target, vis0, is_start) && q.len() > 0 implies q[0]
                    >= i + 1 by {
                    if q[0] == i {
                        let qt = q.drop_first();
                        assert forall|k: int| 0 <= k < qt.len() implies !vis1.contains(
                            #[trigger] source(obs@, qt, k),
                        ) by {
                            assert(source(obs@, qt, k) == source(obs@, q, k + 1));
                            assert(source(obs@, q, 0) != source(obs@, q, k + 1));
                            assert(!vis0.contains(source(obs@, q, k + 1)));
                        }
                        assert forall|a: int, b: int| 0 <= a < b < qt.len() implies source(
                            obs@,
                            qt,
                            a,
                        ) != source(obs@, qt, b) by {
                            assert(source(obs@, qt, a) == source(obs@, q, a + 1));
                            assert(source(obs@, qt, b) == source(obs@, q, b + 1));
                        }
                        assert forall|k: int| 0 <= k < qt.len() && (k > 0 || !false) implies source(
                            obs@,
                            qt,
                            k,
                        ) != target by {
                            assert(source(obs@, qt, k) == source(obs@, q, k + 1));
                        }
                        assert(search_goal(obs@, qt, next, target, vis1, false));
                    }
                }
            }
        }
        i = i + 1;
    }
    visited.pop();
    proof {
        assert(visited@ =~= vis0);
        assert forall|q: Seq<usize>| !#[trigger] search_goal(obs@, q, current, target, vis0, is_start) by {
            if search_goal(obs@, q, current, target, vis0, is_start) {
                assert(q.len() > 0);
                assert(live(obs@, q[0] as int));
            }
        }
    }
    false
}

/// Find a cycle in the obligation graph (directed: deliverer → receiver).
///
/// Returns the indices into `obs` that form a cycle, or `None` if the
/// graph is acyclic.
pub fn find_cycle(obs: &Vec<NetObligation>) -> (r: Option<Vec<usize>>)
    ensures
        match r {
            Some(c) => is_cycle(obs@, c@),
            None => acyclic(obs@),
        },
{
    let n = obs.len();
    // Accounts that have outgoing live edges.
    let mut starts: Vec<u64> = Vec::new();
    let mut i: usize = 0;
    while i < n
        invariant
            n == obs@.len(),
            i <= n,
            forall|j: int| 0 <= j < i && live(obs@, j) ==> starts@.contains(obs@[j].deliverer_id),
        decreases n - i,
    {
        let ghost before = starts@;
        if obs[i].net_quantity > 0 && !contains_account(&starts, obs[i].deliverer_id) {
            starts.push(obs[i].deliverer_id);
        }
        proof {
            assert forall|j: int| 0 <= j <= i && live(obs@, j) implies starts@.contains(
                obs@[j].deliverer_id,
            ) by {
                if before.contains(obs@[j].deliverer_id) {
                    let w = choose|w: int| 0 <= w < before.len() && before[w] == obs@[j].deliverer_id;
                    assert(starts@[w] == before[w]);
                }
                if j == i {
                    assert(starts@.contains(obs@[j].deliverer_id));
                }
            }
        }
        i = i + 1;
    }
    let m = starts.len();
    let mut k: usize = 0;
    while k < m
        invariant
            m == starts@.len(),
            k <= m,
            forall|j: int| 0 <= j < n && live(obs@, j) ==> starts@.contains(obs@[j].deliverer_id),
            forall|c: Seq<usize>|
                #![trigger is_cycle(obs@, c)]
                is_cycle(obs@, c) ==> !starts@.take(k as int).contains(source(obs@, c, 0)),
        decreases m - k,
    {
        let start = starts[k];
        let mut visited: Vec<u64> = Vec::new();
        let mut path_edges: Vec<usize> = Vec::new();
        if dfs_find_cycle(obs, start, start, &mut visited, &mut path_edges, true) {
            proof {
                let q = choose|q: Seq<usize>|
                    #![trigger search_goal(obs@, q, start, start, Seq::<u64>::empty(), true)]
                    path_edges@ == Seq::<usize>::empty() + q && search_goal(
                        obs@,
                        q,
                        start,
                        start,
                        Seq::<u64>::empty(),
                        true,
                    );
                assert(path_edges@ =~= q);
            }
            return Some(path_edges);
        }
        proof {
            assert forall|c: Seq<usize>| #[trigger] is_cycle(obs@, c) implies !starts@.take(
                k + 1,
            ).contains(source(obs@, c, 0)) by {
                let t = starts@.take(k + 1);
                if t.contains(source(obs@, c, 0)) {
                    let w = choose|w: int| 0 <= w < t.len() && #[trigger] t[w] == source(obs@, c, 0);
                    if w < k {
                        assert(starts@.take(k as int)[w] == source(obs@, c, 0));
                    } else {
                        assert(forall|kk: int|
                            0 <= kk < c.len() ==> !Seq::<u64>::empty().contains(
                                #[trigger] source(obs@, c, kk),
                            ));
                        assert(search_goal(obs@, c, start, start, Seq::<u64>::empty(), true));
                    }
                }
            }
        }
        k = k + 1;
    }
    proof {
        assert forall|c: Seq<usize>| !is_cycle(obs@, c) by {
            if is_cycle(obs@, c) {
                assert(live(obs@, c[0] as int));
                assert(starts@.contains(source(obs@, c, 0)));
                assert(starts@.take(m as int) =~= starts@);
            }
        }
    }
    None
}


// ── Facts about walks ─────────────────────────────────────────────────

/// A walk visits valid live edges, each leading into the source of the next.
pub proof fn lemma_walk_facts(obs: Seq<NetObligation>, p: Seq<usize>, from: u64, to: u64)
    requires
        is_walk(obs, p, from, to),
    ensures
        forall|k: int| 0 <= k < p.len() ==> live(obs, #[trigger] p[k] as int),
        forall|k: int|
            0 <= k < p.len() - 1 ==> obs[#[trigger] p[k] as int].receiver_id == obs[p[k + 1] as int].deliverer_id,
        p.len() > 0 ==> obs[p[0] as int].deliverer_id == from,
        p.len() > 0 ==> obs[p[p.len() - 1] as int].receiver_id == to,
        p.len() == 0 ==> from == to,
    decreases p.len(),
{
    if p.len() > 0 {
        let t = p.drop_first();
        lemma_walk_facts(obs, t, obs[p[0] as int].receiver_id, to);
        assert forall|k: int| 0 <= k < p.len() implies live(obs, #[trigger] p[k] as int) by {
            if k > 0 {
                assert(p[k] == t[k - 1]);
            }
        }
        assert forall|k: int| 0 <= k < p.len() - 1 implies obs[#[trigger] p[k] as int].receiver_id
            == obs[p[k + 1] as int].deliverer_id by {
            if k > 0 {
                assert(p[k] == t[k - 1]);
                assert(p[k + 1] == t[k]);
            } else {
                assert(p[1] == t[0]);
            }
        }
        if p.len() > 1 {
            assert(p[p.len() - 1] == t[t.len() - 1]);
        }
    }
}

/// The edges of a simple walk are pairwise distinct.
pub proof fn lemma_simple_distinct(obs: Seq<NetObligation>, p: Seq<usize>)
    requires
        simple(obs, p),
    ensures
        forall|a: int, b: int| 0 <= a < b < p.len() ==> p[a] != p[b],
{
    assert forall|a: int, b: int| 0 <= a < b < p.len() implies p[a] != p[b] by {
        assert(source(obs, p, a) != source(obs, p, b));
    }
}

// ── Cancelling a cycle ─────────────────────────────────────────────────

/// Smallest quantity among the edges listed in `c` (0 when `c` is empty).
pub open spec fn min_quantity(obs: Seq<NetObligation>, c: Seq<usize>) -> u64
    decreases c.len(),
{
    if c.len() == 0 {
        0
    } else if c.len() == 1 {
        obs[c[0] as int].net_quantity
    } else {
        let m = min_quantity(obs, c.drop_last());
        let q = obs[c.last() as int].net_quantity;
        if q < m {
            q
        } else {
            m
        }
    }
}

/// Division truncating toward zero, as integer division does on `i128`.
pub open spec fn trunc_div(a: int, b: int) -> int {
    if a >= 0 {
        a / b
    } else {
        -((-a) / b)
    }
}

/// An obligation with its quantity lowered by `m` and its payment lowered in
/// proportion, `payment * m / quantity` rounded toward zero.
pub open spec fn reduce(o: NetObligation, m: u64) -> NetObligation {
    NetObligation {
        net_quantity: (o.net_quantity - m) as u64,
        net_payment: (o.net_payment - trunc_div(o.net_payment * m, o.net_quantity as int)) as i64,
        ..o
    }
}

/// `obs` with every edge listed in `c` reduced by `m`, applied in list order.
pub open spec fn cancel_edges(obs: Seq<NetObligation>, c: Seq<usize>, m: u64) -> Seq<NetObligation>
    decreases c.len(),
{
    if c.len() == 0 {
        obs
    } else {
        cancel_edges(obs, c.drop_last(), m).update(
            c.last() as int,
            reduce(obs[c.last() as int], m),
        )
    }
}

/// `obs` after cancelling the edges listed in `c`: their smallest quantity is
/// taken off every one of them; nothing changes when that smallest quantity
/// is 0 (in particular when `c` is empty).
pub open spec fn spec_cancel(obs: Seq<NetObligation>, c: Seq<usize>) -> Seq<NetObligation> {
    if min_quantity(obs, c) == 0 {
        obs
    } else {
        cancel_edges(obs, c, min_quantity(obs, c))
    }
}

/// The minimum is a lower bound that some listed edge attains.
pub proof fn lemma_min_quantity(obs: Seq<NetObligation>, c: Seq<usize>)
    requires
        c.len() > 0,
    ensures
        forall|k: int| 0 <= k < c.len() ==> min_quantity(obs, c) <= obs[#[trigger] c[k] as int].net_quantity,
        exists|k: int| 0 <= k < c.len() && min_quantity(obs, c) == obs[#[trigger] c[k] as int].net_quantity,
    decreases c.len(),
{
    if c.len() > 1 {
        let d = c.drop_last();
        lemma_min_quantity(obs, d);
        assert forall|k: int| 0 <= k < c.len() implies min_quantity(obs, c) <= obs[#[trigger] c[k] as int].net_quantity by {
            if k < c.len() - 1 {
                assert(c[k] == d[k]);
            }
        }
        let w = choose|k: int| 0 <= k < d.len() && min_quantity(obs, d) == obs[#[trigger] d[k] as int].net_quantity;
        if obs[c.last() as int].net_quantity < min_quantity(obs, d) {
            assert(min_quantity(obs, c) == obs[c[c.len() - 1] as int].net_quantity);
        } else {
            assert(c[w] == d[w]);
        }
    } else {
        assert(min_quantity(obs, c) == obs[c[0] as int].net_quantity);
    }
}

/// Cancelling distinct in-range edges changes exactly those edges.
pub proof fn lemma_cancel_edges_index(obs: Seq<NetObligation>, c: Seq<usize>, m: u64)
    requires
        obs.len() <= usize::MAX,
        forall|k: int| 0 <= k < c.len() ==> #[trigger] c[k] < obs.len(),
        forall|a: int, b: int| 0 <= a < b < c.len() ==> c[a] != c[b],
    ensures
        cancel_edges(obs, c, m).len() == obs.len(),
        forall|i: int|
            0 <= i < obs.len() ==> #[trigger] cancel_edges(obs, c, m)[i] == if c.contains(i as usize) {
                reduce(obs[i], m)
            } else {
                obs[i]
            },
    decreases c.len(),
{
    if c.len() > 0 {
        let d = c.drop_last();
        lemma_cancel_edges_index(obs, d, m);
        assert forall|i: int| 0 <= i < obs.len() implies #[trigger] cancel_edges(obs, c, m)[i] == if c.contains(i as usize) {
            reduce(obs[i], m)
        } else {
            obs[i]
        } by {
            if i == c.last() as int {
                assert(c.contains(i as usize));
            } else {
                assert(cancel_edges(obs, d, m)[i] == cancel_edges(obs, c, m)[i]);
                if c.contains(i as usize) {
                    let w = choose|w: int| 0 <= w < c.len() && c[w] == i as usize;
                    assert(w != c.len() - 1);
                    assert(d[w] == c[w]);
                } else {
                    if d.contains(i as usize) {
                        let w = choose|w: int| 0 <= w < d.len() && d[w] == i as usize;
                        assert(c[w] == d[w]);
                    }
                }
            }
        }
    }
}

/// Facts about the edges of a cycle used by cancellation.
pub proof fn lemma_cycle_edges(obs: Seq<NetObligation>, c: Seq<usize>)
    requires
        is_cycle(obs, c),
    ensures
        forall|k: int| 0 <= k < c.len() ==> live(obs, #[trigger] c[k] as int),
        forall|a: int, b: int| 0 <= a < b < c.len() ==> c[a] != c[b],
        0 < min_quantity(obs, c),
        forall|k: int| 0 <= k < c.len() ==> min_quantity(obs, c) <= obs[#[trigger] c[k] as int].net_quantity,
        exists|k: int| 0 <= k < c.len() && min_quantity(obs, c) == obs[#[trigger] c[k] as int].net_quantity,
{
    lemma_walk_facts(obs, c, source(obs, c, 0), source(obs, c, 0));
    lemma_simple_distinct(obs, c);
    lemma_min_quantity(obs, c);
    let w = choose|k: int| 0 <= k < c.len() && min_quantity(obs, c) == obs[#[trigger] c[k] as int].net_quantity;
    assert(live(obs, c[w] as int));
}

/// Proportional payment reduction `payment * m / quantity`, rounded toward zero.
fn payment_reduction(payment: i64, m: u64, quantity: u64) -> (r: i64)
    requires
        0 < m <= quantity,
    ensures
        r == trunc_div(payment * m, quantity as int),
        payment >= 0 ==> 0 <= r <= payment,
        payment < 0 ==> payment <= r <= 0,
{
    proof {
        lemma_product_bounds(payment as int, m as int);
    }
    let num: i128 = (payment as i128) * (m as i128);
    let q = quantity as i128;
    if num >= 0 {
        proof {
            lemma_scaled_down(payment as int, m as int, quantity as int);
        }
        (num / q) as i64
    } else {
        proof {
            lemma_scaled_down(-(payment as int), m as int, quantity as int);
            assert((-(payment as int)) * m == -(payment * m)) by (nonlinear_arith);
        }
        (-((-num) / q)) as i64
    }
}

proof fn lemma_product_bounds(a: int, m: int)
    requires
        -0x8000_0000_0000_0000 <= a < 0x8000_0000_0000_0000,
        0 < m <= 0xffff_ffff_ffff_ffff,
    ensures
        -0x8000_0000_0000_0000_0000_0000_0000_0000 < a * m < 0x8000_0000_0000_0000_0000_0000_0000_0000,
        a >= 0 <==> a * m >= 0,
{
    assert(-0x8000_0000_0000_0000_0000_0000_0000_0000 < a * m < 0x8000_0000_0000_0000_0000_0000_0000_0000)
        by (nonlinear_arith)
        requires
            -0x8000_0000_0000_0000 <= a < 0x8000_0000_0000_0000,
            0 < m <= 0xffff_ffff_ffff_ffff,
    ;
    if a >= 0 {
        assert(a * m >= 0) by (nonlinear_arith)
            requires
                a >= 0,
                m > 0,
        ;
    } else {
        assert(a * m < 0) by (nonlinear_arith)
            requires
                a < 0,
                m > 0,
        ;
    }
}

proof fn lemma_scaled_down(a: int, m: int, q: int)
    requires
        0 <= a,
        0 < m <= q,
    ensures
        0 <= (a * m) / q <= a,
{
    assert(0 <= a * m <= a * q) by (nonlinear_arith)
        requires
            a >= 0,
            0 < m <= q,
    ;
    assert((a * m) / q <= (a * q) / q) by (nonlinear_arith)
        requires
            0 <= a * m <= a * q,
            q > 0,
    ;
    assert((a * q) / q == a) by (nonlinear_arith)
        requires
            q > 0,
    ;
    assert(0 <= (a * m) / q) by (nonlinear_arith)
        requires
            0 <= a * m,
            q > 0,
    ;
}

/// Cancel a cycle by subtracting the minimum edge weight.
///
/// Payment is reduced proportionally to preserve the average price per unit.
/// Any list of distinct edge indices is accepted; when the smallest quantity
/// among them is 0 (or the list is empty) nothing changes.
pub fn cancel_cycle(obs: &mut Vec<NetObligation>, cycle: &Vec<usize>)
    requires
        forall|k: int| 0 <= k < cycle@.len() ==> #[trigger] cycle@[k] < old(obs)@.len(),
        forall|a: int, b: int| 0 <= a < b < cycle@.len() ==> cycle@[a] != cycle@[b],
    ensures
        final(obs)@ == spec_cancel(old(obs)@, cycle@),
{
    let ghost orig = obs@;
    let total_len = obs.len();
    assert(orig.len() == total_len);
    let len = cycle.len();
    if len == 0 {
        return;
    }
    let mut min_qty: u64 = obs[cycle[0]].net_quantity;
    let mut k: usize = 1;
    while k < len
        invariant
            len == cycle@.len(),
            1 <= k <= len,
            obs@ == orig,
            forall|j: int| 0 <= j < len ==> #[trigger] cycle@[j] < orig.len(),
            min_qty == min_quantity(orig, cycle@.take(k as int)),
        decreases len - k,
    {
        assert(cycle@.take(k + 1).drop_last() =~= cycle@.take(k as int));
        let q = obs[cycle[k]].net_quantity;
        if q < min_qty {
            min_qty = q;
        }
        k = k + 1;
    }
    assert(cycle@.take(len as int) =~= cycle@);
    if min_qty == 0 {
        return;
    }
    proof {
        lemma_min_quantity(orig, cycle@);
    }
    let mut k: usize = 0;
    while k < len
        invariant
            len == cycle@.len(),
            k <= len,
            obs@.len() == orig.len(),
            orig.len() <= usize::MAX,
            min_qty == min_quantity(orig, cycle@),
            0 < min_qty,
            forall|j: int| 0 <= j < len ==> #[trigger] cycle@[j] < orig.len(),
            forall|j: int| 0 <= j < len ==> min_qty <= orig[#[trigger] cycle@[j] as int].net_quantity,
            forall|a: int, b: int| 0 <= a < b < len ==> cycle@[a] != cycle@[b],
            obs@ == cancel_edges(orig, cycle@.take(k as int), min_qty),
        decreases len - k,
    {
        let ghost done = cycle@.take(k as int);
        assert(cycle@.take(k + 1).drop_last() =~= done);
        let i = cycle[k];
        proof {
            lemma_cancel_edges_index(orig, done, min_qty);
            if done.contains(i) {
                let w = choose|w: int| 0 <= w < done.len() && done[w] == i;
                assert(cycle@[w] == cycle@[k as int]);
            }
        }
        let ob = obs[i];
        assert(ob == orig[i as int]);
        let original_qty = ob.net_quantity;
        let reduction = payment_reduction(ob.net_payment, min_qty, original_qty);
        obs[i] = NetObligation {
            net_quantity: original_qty - min_qty,
            net_payment: ob.net_payment - reduction,
            ..ob
        };
        assert(obs@ =~= cancel_edges(orig, cycle@.take(k + 1), min_qty));
        k = k + 1;
    }
    assert(cycle@.take(len as int) =~= cycle@);
}


// ── Repeated cancellation ──────────────────────────────────────────────

/// Number of live edges.
pub open spec fn count_positive(obs: Seq<NetObligation>) -> nat
    decreases obs.len(),
{
    if obs.len() == 0 {
        0
    } else {
        count_positive(obs.drop_last()) + if obs.last().net_quantity > 0 {
            1nat
        } else {
            0nat
        }
    }
}

proof fn lemma_count_positive_le(x: Seq<NetObligation>, y: Seq<NetObligation>)
    requires
        x.len() == y.len(),
        forall|i: int| 0 <= i < x.len() ==> #[trigger] y[i].net_quantity <= x[i].net_quantity,
    ensures
        count_positive(y) <= count_positive(x),
        (exists|j: int| 0 <= j < x.len() && x[j].net_quantity > 0 && #[trigger] y[j].net_quantity == 0)
            ==> count_positive(y) < count_positive(x),
    decreases x.len(),
{
    if x.len() > 0 {
        let xd = x.drop_last();
        let yd = y.drop_last();
        assert forall|i: int| 0 <= i < xd.len() implies #[trigger] yd[i].net_quantity
            <= xd[i].net_quantity by {
            assert(yd[i] == y[i] && xd[i] == x[i]);
        }
        lemma_count_positive_le(xd, yd);
        assert(y.last().net_quantity <= x.last().net_quantity) by {
            assert(y[y.len() - 1].net_quantity <= x[x.len() - 1].net_quantity);
        }
        if exists|j: int| 0 <= j < x.len() && x[j].net_quantity > 0 && #[trigger] y[j].net_quantity == 0 {
            let j = choose|j: int| 0 <= j < x.len() && x[j].net_quantity > 0 && #[trigger] y[j].net_quantity == 0;
            if j < x.len() - 1 {
                assert(xd[j] == x[j] && yd[j] == y[j]);
            }
        }
    }
}

/// Cancelling a cycle keeps the length and removes at least one live edge.
pub proof fn lemma_cancel_lowers_positive(obs: Seq<NetObligation>, c: Seq<usize>)
    requires
        is_cycle(obs, c),
        obs.len() <= usize::MAX,
    ensures
        spec_cancel(obs, c).len() == obs.len(),
        count_positive(spec_cancel(obs, c)) < count_positive(obs),
{
    let m = min_quantity(obs, c);
    lemma_cycle_edges(obs, c);
    lemma_cancel_edges_index(obs, c, m);
    let y = spec_cancel(obs, c);
    assert forall|i: int| 0 <= i < obs.len() implies #[trigger] y[i].net_quantity <= obs[i].net_quantity by {
        if c.contains(i as usize) {
            let w = choose|w: int| 0 <= w < c.len() && c[w] == i as usize;
            assert(m <= obs[c[w] as int].net_quantity);
        }
    }
    let w = choose|k: int| 0 <= k < c.len() && m == obs[#[trigger] c[k] as int].net_quantity;
    let j = c[w] as int;
    assert(c.contains(j as usize));
    assert(live(obs, j));
    assert(y[j].net_quantity == 0);
    lemma_count_positive_le(obs, y);
}

/// Cycles cancelled one after another, each a cycle of the state left by the
/// ones before it.
pub open spec fn valid_trace(start: Seq<NetObligation>, trace: Seq<Seq<usize>>) -> bool
    decreases trace.len(),
{
    if trace.len() == 0 {
        true
    } else {
        valid_trace(start, trace.drop_last()) && is_cycle(
            apply_trace(start, trace.drop_last()),
            trace.last(),
        )
    }
}

/// State reached from `start` by cancelling the cycles of `trace` in order.
pub open spec fn apply_trace(start: Seq<NetObligation>, trace: Seq<Seq<usize>>) -> Seq<NetObligation>
    decreases trace.len(),
{
    if trace.len() == 0 {
        start
    } else {
        spec_cancel(apply_trace(start, trace.drop_last()), trace.last())
    }
}

/// The obligations with a positive quantity, in order.
pub open spec fn positive_only(obs: Seq<NetObligation>) -> Seq<NetObligation>
    decreases obs.len(),
{
    if obs.len() == 0 {
        obs
    } else if obs.last().net_quantity > 0 {
        positive_only(obs.drop_last()).push(obs.last())
    } else {
        positive_only(obs.drop_last())
    }
}

/// `out` is what cycle cancellation leaves of the single-symbol group `g`:
/// some sequence of cycles was cancelled one after another until no cycle was
/// left, and the obligations reduced to zero were dropped.
pub open spec fn group_settled(g: Seq<NetObligation>, out: Seq<NetObligation>) -> bool {
    exists|trace: Seq<Seq<usize>>|
        #![trigger apply_trace(g, trace)]
        valid_trace(g, trace) && acyclic(apply_trace(g, trace)) && out == positive_only(
            apply_trace(g, trace),
        )
}

/// Repeatedly find and cancel cycles until none remain, then drop the
/// obligations reduced to zero.
pub fn settle_group(group: Vec<NetObligation>) -> (out: Vec<NetObligation>)
    ensures
        group_settled(group@, out@),
{
    let ghost g = group@;
    let mut obs = group;
    let ghost mut trace: Seq<Seq<usize>> = Seq::empty();
    loop
        invariant
            obs@ == apply_trace(g, trace),
            valid_trace(g, trace),
        ensures
            obs@ == apply_trace(g, trace),
            valid_trace(g, trace),
            acyclic(obs@),
        decreases count_positive(obs@),
    {
        match find_cycle(&obs) {
            Some(cycle) => {
                let ghost before = obs@;
                let total_len = obs.len();
                proof {
                    lemma_cancel_lowers_positive(before, cycle@);
                    lemma_cycle_edges(before, cycle@);
                    assert forall|k: int| 0 <= k < cycle@.len() implies #[trigger] cycle@[k] < before.len() by {
                        assert(live(before, cycle@[k] as int));
                    }
                }
                cancel_cycle(&mut obs, &cycle);
                proof {
                    let next = trace.push(cycle@);
                    assert(next.drop_last() =~= trace);
                    trace = next;
                }
            },
            None => {
                break ;
            },
        }
    }
    let ghost fin = obs@;
    let n = obs.len();
    let mut out: Vec<NetObligation> = Vec::new();
    let mut i: usize = 0;
    while i < n
        invariant
            n == fin.len(),
            obs@ == fin,
            i <= n,
            out@ == positive_only(fin.take(i as int)),
        decreases n - i,
    {
        assert(fin.take(i + 1).drop_last() =~= fin.take(i as int));
        if obs[i].net_quantity > 0 {
            out.push(obs[i]);
        }
        i = i + 1;
    }
    assert(fin.take(n as int) =~= fin);
    assert(valid_trace(g, trace) && acyclic(apply_trace(g, trace)) && out@ == positive_only(
        apply_trace(g, trace),
    ));
    out
}

} // verus!
