//! The graph compiler: dependency ordering, transient liveness and
//! aliasing, and per-resource barrier synthesis.
//!
//! Two access records to one resource form a hazard when at least one of
//! them writes and they belong to different passes; the earlier record's
//! pass must then run before the later record's pass. The compiler orders
//! the passes so that every hazard is respected (ties between ready passes
//! are broken by declaration order, so identical inputs always compile to
//! the identical plan), or reports the passes a cycle leaves unschedulable:
//! the cycle's members and every pass waiting on them.

use vstd::prelude::*;
use crate::GraphError;
use crate::access::AccessKind;
use crate::access::Barrier;
use crate::access::barrier_seq_init;
use crate::access::spec_is_write;
use crate::access::synthesize;
use crate::graph::AccessRecord;
use crate::graph::RenderGraph;
use crate::graph::ResourceInfo;
use crate::handle::LifetimeClass;
use crate::temporal::TemporalCache;

verus! {

/// Records `i` and `j` (in declaration order, `i < j`) conflict: same
/// resource, at least one write, different passes. The pass of `i` must
/// then execute before the pass of `j`.
pub open spec fn hazard_pair(recs: Seq<AccessRecord>, i: int, j: int) -> bool {
    &&& 0 <= i < j < recs.len()
    &&& recs[i].resource == recs[j].resource
    &&& (spec_is_write(recs[i].kind) || spec_is_write(recs[j].kind))
    &&& recs[i].pass != recs[j].pass
}

/// `pm` assigns every pass a position that puts the earlier side of every
/// hazard first. Any such numbering is a witness that the graph is acyclic.
pub open spec fn respects_hazards(recs: Seq<AccessRecord>, pm: Seq<usize>) -> bool {
    forall|i: int, j: int|
        hazard_pair(recs, i, j) ==> pm[recs[i].pass as int] < pm[recs[j].pass as int]
}

/// Pass `q` waits on a member of `members`: some conflicting record pair
/// has its later side in `q` and its earlier side in a member pass.
pub open spec fn cycle_member(recs: Seq<AccessRecord>, members: Seq<usize>, q: usize) -> bool {
    exists|i: int, j: int|
        #[trigger] hazard_pair(recs, i, j) && recs[j].pass == q && members.contains(recs[i].pass)
}

/// A nonempty set of passes each of which waits on another member: the
/// shape of the compiler's cycle report.
pub open spec fn cycle_certificate(recs: Seq<AccessRecord>, members: Seq<usize>) -> bool {
    &&& members.len() > 0
    &&& forall|k: int|
        0 <= k < members.len() ==> cycle_member(recs, members, #[trigger] members[k])
}

/// The member index whose pass has the smallest position under `pm`.
proof fn lemma_min_member(members: Seq<usize>, pm: Seq<usize>) -> (k0: int)
    requires
        members.len() > 0,
        forall|k: int| 0 <= k < members.len() ==> (#[trigger] members[k]) < pm.len(),
    ensures
        0 <= k0 < members.len(),
        forall|k: int|
            0 <= k < members.len() ==> pm[members[k0] as int] <= pm[(#[trigger] members[k]) as int],
    decreases members.len(),
{
    if members.len() == 1 {
        0
    } else {
        let sub = members.drop_last();
        let k1 = lemma_min_member(sub, pm);
        let kl = members.len() - 1;
        assert(forall|k: int| 0 <= k < sub.len() ==> sub[k] == members[k]);
        let k0 = if pm[members[k1] as int] <= pm[members[kl] as int] {
            k1
        } else {
            kl as int
        };
        assert forall|k: int|
            0 <= k < members.len() implies pm[members[k0] as int] <= pm[(
        #[trigger] members[k]) as int] by {
            if k < members.len() - 1 {
                assert(pm[members[k1] as int] <= pm[sub[k] as int]);
            }
        }
        k0
    }
}

/// Law: a cycle certificate excludes every dependency-respecting pass
/// numbering. Together with the compiler's contract this states that the
/// compiler succeeds, with an order consistent with every hazard, exactly
/// on the acyclic graphs: whenever it reports a cycle, no pass numbering
/// at all (and hence no execution order) respects the declared hazards.
pub proof fn lemma_cycle_excludes_numbering(
    recs: Seq<AccessRecord>,
    members: Seq<usize>,
    pm: Seq<usize>,
)
    requires
        cycle_certificate(recs, members),
        forall|k: int| 0 <= k < members.len() ==> (#[trigger] members[k]) < pm.len(),
    ensures
        !respects_hazards(recs, pm),
{
    if respects_hazards(recs, pm) {
        let k0 = lemma_min_member(members, pm);
        let q0 = members[k0];
        assert(cycle_member(recs, members, q0));
        let (i, j): (int, int) = choose|i: int, j: int|
            #[trigger] hazard_pair(recs, i, j) && recs[j].pass == q0 && members.contains(
                recs[i].pass,
            );
        assert(pm[recs[i].pass as int] < pm[recs[j].pass as int]);
        let k2 = choose|k2: int| 0 <= k2 < members.len() && members[k2] == recs[i].pass;
        assert(pm[members[k0] as int] <= pm[members[k2] as int]);
        assert(false);
    }
}

/// How many entries of `s` are true.
pub open spec fn count_true(s: Seq<bool>) -> int
    decreases s.len(),
{
    if s.len() == 0 {
        0
    } else {
        count_true(s.drop_last()) + if s.last() {
            1int
        } else {
            0int
        }
    }
}

proof fn lemma_count_true_update(s: Seq<bool>, i: int)
    requires
        0 <= i < s.len(),
        !s[i],
    ensures
        count_true(s.update(i, true)) == count_true(s) + 1,
    decreases s.len(),
{
    let t = s.update(i, true);
    if i == s.len() - 1 {
        assert(t.drop_last() =~= s.drop_last());
    } else {
        assert(t.drop_last() =~= s.drop_last().update(i, true));
        lemma_count_true_update(s.drop_last(), i);
    }
}

proof fn lemma_count_true_bounds(s: Seq<bool>)
    ensures
        0 <= count_true(s) <= s.len(),
    decreases s.len(),
{
    if s.len() > 0 {
        lemma_count_true_bounds(s.drop_last());
    }
}

proof fn lemma_count_true_none(s: Seq<bool>)
    requires
        forall|i: int| 0 <= i < s.len() ==> !s[i],
    ensures
        count_true(s) == 0,
    decreases s.len(),
{
    if s.len() > 0 {
        lemma_count_true_none(s.drop_last());
    }
}

proof fn lemma_count_true_all(s: Seq<bool>)
    requires
        forall|i: int| 0 <= i < s.len() ==> s[i],
    ensures
        count_true(s) == s.len(),
    decreases s.len(),
{
    if s.len() > 0 {
        lemma_count_true_all(s.drop_last());
    }
}

/// Pass `q` is ready once every hazard edge into it comes from a pass
/// already placed in the order.
pub open spec fn ready_spec(edges: Seq<(usize, usize)>, done: Seq<bool>, q: usize) -> bool {
    forall|e: int|
        0 <= e < edges.len() && (#[trigger] edges[e]).1 == q ==> done[edges[e].0 as int]
}

/// `q` occurs among the first `k` entries of `order`.
pub open spec fn placed_before(order: Seq<usize>, k: int, q: usize) -> bool {
    exists|k2: int| 0 <= k2 < k && order[k2] == q
}

/// Every hazard edge into `q` comes from a pass among the first `k`
/// entries of `order`.
pub open spec fn edge_deps_placed(
    edges: Seq<(usize, usize)>,
    order: Seq<usize>,
    k: int,
    q: usize,
) -> bool {
    forall|e: int|
        0 <= e < edges.len() && (#[trigger] edges[e]).1 == q ==> placed_before(
            order,
            k,
            edges[e].0,
        )
}

/// Some conflicting record pair runs its earlier side in pass `p` and its
/// later side in pass `q`: `p` must precede `q`.
pub open spec fn pass_edge(recs: Seq<AccessRecord>, p: usize, q: usize) -> bool {
    exists|i: int, j: int|
        #[trigger] hazard_pair(recs, i, j) && recs[i].pass == p && recs[j].pass == q
}

/// Every pass that must precede `q` occurs among the first `k` entries of
/// `order`.
pub open spec fn deps_placed(recs: Seq<AccessRecord>, order: Seq<usize>, k: int, q: usize) -> bool {
    forall|p: usize| #[trigger] pass_edge(recs, p, q) ==> placed_before(order, k, p)
}

/// All edges name passes below `n` and are never self-loops.
pub open spec fn edges_wf(edges: Seq<(usize, usize)>, n: nat) -> bool {
    forall|e: int|
        0 <= e < edges.len() ==> (#[trigger] edges[e]).0 < n && edges[e].1 < n && edges[e].0
            != edges[e].1
}

/// A vector of `n` copies of `val`.
fn filled_bool(n: usize, val: bool) -> (v: Vec<bool>)
    ensures
        v@.len() == n,
        forall|i: int| 0 <= i < n ==> v@[i] == val,
{
    let mut v: Vec<bool> = Vec::new();
    let mut i: usize = 0;
    while i < n
        invariant
            i <= n,
            v@.len() == i,
            forall|j: int| 0 <= j < i ==> v@[j] == val,
        decreases n - i,
    {
        v.push(val);
        i = i + 1;
    }
    v
}

/// A vector of `n` copies of `val`.
fn filled_usize(n: usize, val: usize) -> (v: Vec<usize>)
    ensures
        v@.len() == n,
        forall|i: int| 0 <= i < n ==> v@[i] == val,
{
    let mut v: Vec<usize> = Vec::new();
    let mut i: usize = 0;
    while i < n
        invariant
            i <= n,
            v@.len() == i,
            forall|j: int| 0 <= j < i ==> v@[j] == val,
        decreases n - i,
    {
        v.push(val);
        i = i + 1;
    }
    v
}

/// `e` is the pass pair of some conflicting record pair.
pub open spec fn edge_from_hazard(recs: Seq<AccessRecord>, e: (usize, usize)) -> bool {
    exists|i: int, j: int|
        #[trigger] hazard_pair(recs, i, j) && e == (recs[i].pass, recs[j].pass)
}

/// Derives the pass-level dependency edges from the declared records:
/// one edge per conflicting record pair, earlier pass first.
fn build_edges(records: &Vec<AccessRecord>) -> (edges: Vec<(usize, usize)>)
    ensures
        forall|k: int|
            0 <= k < edges@.len() ==> edge_from_hazard(records@, #[trigger] edges@[k]),
        forall|i: int, j: int|
            hazard_pair(records@, i, j) ==> edges@.contains(
                (records@[i].pass, records@[j].pass),
            ),
{
    let m = records.len();
    let mut edges: Vec<(usize, usize)> = Vec::new();
    let mut i: usize = 0;
    while i < m
        invariant
            i <= m,
            m == records@.len(),
            forall|k: int|
                0 <= k < edges@.len() ==> edge_from_hazard(records@, #[trigger] edges@[k]),
            forall|a: int, b: int|
                hazard_pair(records@, a, b) && a < i ==> edges@.contains(
                    (records@[a].pass, records@[b].pass),
                ),
        decreases m - i,
    {
        let mut j: usize = i + 1;
        while j < m
            invariant
                i < m,
                i + 1 <= j <= m,
                m == records@.len(),
                forall|k: int|
                    0 <= k < edges@.len() ==> edge_from_hazard(records@, #[trigger] edges@[k]),
                forall|a: int, b: int|
                    hazard_pair(records@, a, b) && a < i ==> edges@.contains(
                        (records@[a].pass, records@[b].pass),
                    ),
                forall|b: int|
                    hazard_pair(records@, i as int, b) && b < j ==> edges@.contains(
                        (records@[i as int].pass, records@[b].pass),
                    ),
            decreases m - j,
        {
            let ri = records[i];
            let rj = records[j];
            if ri.resource == rj.resource && ri.pass != rj.pass && (crate::access::is_write(ri.kind)
                || crate::access::is_write(rj.kind)) {
                let ghost olde = edges@;
                edges.push((ri.pass, rj.pass));
                proof {
                    assert(hazard_pair(records@, i as int, j as int));
                    assert(edges@[olde.len() as int] == (
                        records@[i as int].pass,
                        records@[j as int].pass,
                    ));
                    assert(edge_from_hazard(records@, edges@[olde.len() as int]));
                    assert forall|a: int, b: int|
                        hazard_pair(records@, a, b) && (a < i || (a == i && b < j
                            + 1)) implies edges@.contains(
                        (records@[a].pass, records@[b].pass),
                    ) by {
                        if a < i || b < j {
                            assert(olde.contains((records@[a].pass, records@[b].pass)));
                            let k = choose|k: int|
                                0 <= k < olde.len() && olde[k] == (records@[a].pass, records@[b].pass);
                            assert(edges@[k] == (records@[a].pass, records@[b].pass));
                        } else {
                            assert(edges@[olde.len() as int] == (records@[a].pass, records@[b].pass));
                        }
                    }
                }
            }
            j = j + 1;
        }
        i = i + 1;
    }
    edges
}

/// Whether every hazard edge into `q` comes from an already placed pass.
fn is_ready(edges: &Vec<(usize, usize)>, done: &Vec<bool>, q: usize) -> (r: bool)
    requires
        edges_wf(edges@, done@.len() as nat),
    ensures
        r == ready_spec(edges@, done@, q),
{
    let m = edges.len();
    let mut e: usize = 0;
    while e < m
        invariant
            e <= m,
            m == edges@.len(),
            edges_wf(edges@, done@.len() as nat),
            forall|k: int|
                0 <= k < e && (#[trigger] edges@[k]).1 == q ==> done@[edges@[k].0 as int],
        decreases m - e,
    {
        let (a, b) = edges[e];
        if b == q && !done[a] {
            proof {
                assert(0 <= e < edges@.len() && edges@[e as int].1 == q && !done@[edges@[e as int].0 as int]);
            }
            return false;
        }
        e = e + 1;
    }
    true
}

/// Orders passes `0..n` topologically with respect to `edges`, smallest
/// ready pass first. The tie-break is part of the contract: each `order[k]`
/// is the smallest pass not placed earlier whose predecessors are all
/// placed earlier — which pins the order uniquely, so identical inputs
/// always yield the identical order. On success returns the order and its
/// inverse `pos`. When no complete order exists, returns a nonempty set of
/// passes each of which waits on another member: the certificate of a
/// dependency cycle.
fn topo_order(n: usize, edges: &Vec<(usize, usize)>) -> (r: Result<
    (Vec<usize>, Vec<usize>),
    Vec<usize>,
>)
    requires
        edges_wf(edges@, n as nat),
    ensures
        match r {
            Ok((order, pos)) => {
                &&& order@.len() == n
                &&& pos@.len() == n
                &&& forall|k: int| 0 <= k < n ==> (#[trigger] order@[k]) < n
                &&& forall|p: int| 0 <= p < n ==> (#[trigger] pos@[p]) < n
                &&& forall|k: int| 0 <= k < n ==> pos@[(#[trigger] order@[k]) as int] == k
                &&& forall|p: int| 0 <= p < n ==> order@[(#[trigger] pos@[p]) as int] == p
                &&& forall|e: int|
                    0 <= e < edges@.len() ==> pos@[(#[trigger] edges@[e]).0 as int] < pos@[edges@[e].1 as int]
                &&& forall|k: int, q: int|
                    0 <= k < n && 0 <= q < n && !placed_before(order@, k, q as usize)
                        && #[trigger] edge_deps_placed(edges@, order@, k, q as usize)
                        ==> order@[k] <= q
            },
            Err(stuck) => {
                &&& stuck@.len() > 0
                &&& forall|k: int| 0 <= k < stuck@.len() ==> (#[trigger] stuck@[k]) < n
                &&& forall|k: int|
                    0 <= k < stuck@.len() ==> exists|e: int|
                        0 <= e < edges@.len() && (#[trigger] edges@[e]).1 == #[trigger] stuck@[k]
                            && stuck@.contains(edges@[e].0)
            },
        },
{
    let mut order: Vec<usize> = Vec::new();
    let mut pos: Vec<usize> = filled_usize(n, 0);
    let mut done: Vec<bool> = filled_bool(n, false);
    proof {
        lemma_count_true_none(done@);
    }
    let mut step: usize = 0;
    while step < n
        invariant
            step <= n,
            order@.len() == step,
            pos@.len() == n,
            done@.len() == n,
            edges_wf(edges@, n as nat),
            count_true(done@) == step,
            forall|k: int| 0 <= k < step ==> (#[trigger] order@[k]) < n,
            forall|k: int| 0 <= k < step ==> done@[(#[trigger] order@[k]) as int],
            forall|k: int| 0 <= k < step ==> pos@[(#[trigger] order@[k]) as int] == k,
            forall|p: int|
                0 <= p < n && done@[p] ==> (#[trigger] pos@[p]) < step && order@[pos@[p] as int]
                    == p,
            forall|e: int|
                0 <= e < edges@.len() && done@[(#[trigger] edges@[e]).1 as int] ==> done@[edges@[e].0 as int]
                    && pos@[edges@[e].0 as int] < pos@[edges@[e].1 as int],
            forall|p: int|
                0 <= p < n ==> ((#[trigger] done@[p]) <==> placed_before(
                    order@,
                    step as int,
                    p as usize,
                )),
            forall|k: int, q: int|
                0 <= k < step && 0 <= q < n && !placed_before(order@, k, q as usize)
                    && #[trigger] edge_deps_placed(edges@, order@, k, q as usize)
                    ==> order@[k] <= q,
        decreases n - step,
    {
        // Find the smallest unplaced pass whose predecessors are all placed.
        let mut q: usize = 0;
        let mut found: bool = false;
        let mut chosen: usize = 0;
        let mut any_unplaced: bool = false;
        let mut witness_unplaced: usize = 0;
        while q < n && !found
            invariant
                q <= n,
                done@.len() == n,
                edges_wf(edges@, n as nat),
                !found ==> forall|p: int|
                    0 <= p < q && !done@[p] ==> !ready_spec(edges@, done@, p as usize),
                found ==> chosen < n && !done@[chosen as int] && ready_spec(edges@, done@, chosen),
                found ==> forall|p: int|
                    0 <= p < chosen && !done@[p] ==> !ready_spec(edges@, done@, p as usize),
                any_unplaced ==> witness_unplaced < n && !done@[witness_unplaced as int],
                !any_unplaced ==> forall|p: int| 0 <= p < q ==> done@[p],
            decreases n - q,
        {
            if !done[q] {
                if !any_unplaced {
                    any_unplaced = true;
                    witness_unplaced = q;
                }
                if is_ready(edges, &done, q) {
                    found = true;
                    chosen = q;
                }
            }
            q = q + 1;
        }
        if found {
            let c = chosen;
            let ghost prev_done = done@;
            let ghost prev_pos = pos@;
            let ghost prev_order = order@;
            proof {
                lemma_count_true_update(done@, c as int);
            }
            done.set(c, true);
            pos.set(c, step);
            order.push(c);
            proof {
                assert forall|k: int|
                    0 <= k < step + 1 implies pos@[(#[trigger] order@[k]) as int] == k by {
                    if k < step {
                        assert(prev_order[k] == order@[k]);
                        assert(prev_done[order@[k] as int]);
                        assert(order@[k] != c);
                    }
                }
                assert forall|e: int|
                    0 <= e < edges@.len() && done@[(#[trigger] edges@[e]).1 as int] implies done@[edges@[e].0 as int]
                    && pos@[edges@[e].0 as int] < pos@[edges@[e].1 as int] by {
                    let a = edges@[e].0;
                    let b = edges@[e].1;
                    assert(a != b);
                    if b == c {
                        assert(ready_spec(edges@, prev_done, c));
                        assert(prev_done[a as int]);
                        assert(prev_pos[a as int] < step);
                    } else {
                        assert(prev_done[b as int]);
                        assert(prev_done[a as int]);
                        assert(a != c && b != c);
                    }
                }
                assert forall|p: int|
                    0 <= p < n implies ((#[trigger] done@[p]) <==> placed_before(
                    order@,
                    step + 1,
                    p as usize,
                )) by {
                    if done@[p] {
                        if p == c {
                            assert(order@[step as int] == c);
                        } else {
                            assert(prev_done[p]);
                            assert(placed_before(prev_order, step as int, p as usize));
                            let k2 = choose|k2: int| 0 <= k2 < step && prev_order[k2] == p as usize;
                            assert(order@[k2] == p as usize);
                        }
                        assert(placed_before(order@, step + 1, p as usize));
                    }
                    if placed_before(order@, step + 1, p as usize) {
                        let k2 = choose|k2: int| 0 <= k2 < step + 1 && order@[k2] == p as usize;
                        if k2 == step {
                            assert(p == c);
                        } else {
                            assert(prev_order[k2] == p as usize);
                            assert(placed_before(prev_order, step as int, p as usize));
                            assert(prev_done[p]);
                        }
                        assert(done@[p]);
                    }
                }
                assert forall|k: int, q: int|
                    0 <= k < step + 1 && 0 <= q < n && !placed_before(order@, k, q as usize)
                        && #[trigger] edge_deps_placed(edges@, order@, k, q as usize) implies order@[k]
                    <= q by {
                    if k < step {
                        assert(!placed_before(prev_order, k, q as usize)) by {
                            if placed_before(prev_order, k, q as usize) {
                                let k2 = choose|k2: int|
                                    0 <= k2 < k && prev_order[k2] == q as usize;
                                assert(order@[k2] == q as usize);
                            }
                        }
                        assert(edge_deps_placed(edges@, prev_order, k, q as usize)) by {
                            assert forall|e: int|
                                0 <= e < edges@.len() && (#[trigger] edges@[e]).1
                                    == q as usize implies placed_before(
                                prev_order,
                                k,
                                edges@[e].0,
                            ) by {
                                assert(placed_before(order@, k, edges@[e].0));
                                let k2 = choose|k2: int|
                                    0 <= k2 < k && order@[k2] == edges@[e].0;
                                assert(prev_order[k2] == edges@[e].0);
                            }
                        }
                        assert(order@[k] == prev_order[k]);
                    } else {
                        assert(order@[k] == c);
                        if q < c {
                            assert(!placed_before(prev_order, step as int, q as usize)) by {
                                if placed_before(prev_order, step as int, q as usize) {
                                    let k2 = choose|k2: int|
                                        0 <= k2 < step && prev_order[k2] == q as usize;
                                    assert(order@[k2] == q as usize);
                                    assert(placed_before(order@, step as int, q as usize));
                                }
                            }
                            assert(!prev_done[q]);
                            assert(ready_spec(edges@, prev_done, q as usize)) by {
                                assert forall|e: int|
                                    0 <= e < edges@.len() && (#[trigger] edges@[e]).1
                                        == q as usize implies prev_done[edges@[e].0 as int] by {
                                    assert(placed_before(order@, step as int, edges@[e].0));
                                    let k2 = choose|k2: int|
                                        0 <= k2 < step && order@[k2] == edges@[e].0;
                                    assert(prev_order[k2] == edges@[e].0);
                                    assert(placed_before(prev_order, step as int, edges@[e].0));
                                }
                            }
                            assert(false);
                        }
                    }
                }
            }
            step = step + 1;
        } else {
            if !any_unplaced {
                proof {
                    lemma_count_true_all(done@);
                }
                // Unreachable: all passes placed yet step < n.
                return Err(Vec::new());
            }
            // No unplaced pass is ready: the unplaced passes form the
            // certificate; each waits on another unplaced pass.
            let mut stuck: Vec<usize> = Vec::new();
            let mut p: usize = 0;
            while p < n
                invariant
                    p <= n,
                    done@.len() == n,
                    forall|k: int|
                        0 <= k < stuck@.len() ==> (#[trigger] stuck@[k]) < n
                            && !done@[stuck@[k] as int],
                    forall|t: int|
                        0 <= t < p && !done@[t] ==> stuck@.contains(t as usize),
                decreases n - p,
            {
                if !done[p] {
                    let ghost olds = stuck@;
                    stuck.push(p);
                    proof {
                        assert forall|t: int|
                            0 <= t < p + 1 && !done@[t] implies stuck@.contains(t as usize) by {
                            if t < p {
                                let k = choose|k: int| 0 <= k < olds.len() && olds[k] == t as usize;
                                assert(stuck@[k] == t as usize);
                            } else {
                                assert(stuck@[olds.len() as int] == t as usize);
                            }
                        }
                    }
                }
                p = p + 1;
            }
            proof {
                assert(stuck@.contains(witness_unplaced));
                assert(stuck@.len() > 0);
                assert forall|k: int|
                    0 <= k < stuck@.len() implies exists|e: int|
                    0 <= e < edges@.len() && (#[trigger] edges@[e]).1 == #[trigger] stuck@[k]
                        && stuck@.contains(edges@[e].0) by {
                    let qk = stuck@[k];
                    assert(!done@[qk as int]);
                    assert(!ready_spec(edges@, done@, qk));
                    let e = choose|e: int|
                        !(0 <= e < edges@.len() && (#[trigger] edges@[e]).1 == qk
                            ==> done@[edges@[e].0 as int]);
                    assert(0 <= e < edges@.len() && edges@[e].1 == qk
                        && !done@[edges@[e].0 as int]);
                    assert(stuck@.contains(edges@[e].0));
                }
            }
            return Err(stuck);
        }
    }
    proof {
        lemma_count_true_bounds(done@);
        assert forall|p: int| 0 <= p < n implies done@[p] by {
            if !done@[p] {
                assert(count_true(done@.update(p, true)) == count_true(done@) + 1) by {
                    lemma_count_true_update(done@, p);
                }
                lemma_count_true_bounds(done@.update(p, true));
            }
        }
    }
    Ok((order, pos))
}

/// `t` records an actual declared access of resource `r`.
pub open spec fn entry_from_record(
    recs: Seq<AccessRecord>,
    r: usize,
    t: (usize, AccessKind),
) -> bool {
    exists|m: int|
        0 <= m < recs.len() && (#[trigger] recs[m]) == (AccessRecord {
            resource: r,
            kind: t.1,
            pass: t.0,
        })
}

/// The timeline entries resource `r` gets from pass `p`: one entry per
/// record of `r` declared by `p`, in declaration order.
pub open spec fn pass_entries(recs: Seq<AccessRecord>, r: usize, p: usize) -> Seq<
    (usize, AccessKind),
>
    decreases recs.len(),
{
    if recs.len() == 0 {
        Seq::empty()
    } else {
        let head = pass_entries(recs.drop_last(), r, p);
        if recs.last().resource == r && recs.last().pass == p {
            head.push((recs.last().pass, recs.last().kind))
        } else {
            head
        }
    }
}

/// Resource `r`'s exact timeline under `order`: the passes in execution
/// order, each contributing its declared accesses of `r` in declaration
/// order. Every record of `r` contributes exactly one entry.
pub open spec fn timeline_spec(recs: Seq<AccessRecord>, order: Seq<usize>, r: usize) -> Seq<
    (usize, AccessKind),
>
    decreases order.len(),
{
    if order.len() == 0 {
        Seq::empty()
    } else {
        timeline_spec(recs, order.drop_last(), r) + pass_entries(recs, r, order.last())
    }
}

/// Collects resource `r`'s accesses in execution order: passes are visited
/// in plan order, and within one pass records keep declaration order. The
/// result is exactly `timeline_spec(records@, order@, r)`.
fn timeline_for(
    records: &Vec<AccessRecord>,
    order: &Vec<usize>,
    pos: &Vec<usize>,
    r: usize,
) -> (tl: Vec<(usize, AccessKind)>)
    requires
        order@.len() == pos@.len(),
        forall|m: int|
            0 <= m < records@.len() ==> (#[trigger] records@[m]).pass < pos@.len(),
        forall|k: int| 0 <= k < order@.len() ==> (#[trigger] order@[k]) < pos@.len(),
        forall|k: int| 0 <= k < order@.len() ==> pos@[(#[trigger] order@[k]) as int] == k,
        forall|p: int|
            0 <= p < pos@.len() ==> (#[trigger] pos@[p]) < order@.len() && order@[pos@[p] as int]
                == p,
    ensures
        tl@ == timeline_spec(records@, order@, r),
        forall|t: int|
            0 <= t < tl@.len() ==> entry_from_record(records@, r, #[trigger] tl@[t]),
        forall|m: int|
            0 <= m < records@.len() && (#[trigger] records@[m]).resource == r ==> tl@.contains(
                (records@[m].pass, records@[m].kind),
            ),
        forall|u: int, v: int|
            0 <= u < v < tl@.len() ==> pos@[(#[trigger] tl@[u]).0 as int] <= pos@[(
            #[trigger] tl@[v]).0 as int],
        forall|t: int| 0 <= t < tl@.len() ==> (#[trigger] tl@[t]).0 < pos@.len(),
{
    let n = order.len();
    let mlen = records.len();
    let mut tl: Vec<(usize, AccessKind)> = Vec::new();
    let mut k: usize = 0;
    proof {
        assert(order@.take(0) =~= Seq::<usize>::empty());
    }
    while k < n
        invariant
            tl@ == timeline_spec(records@, order@.take(k as int), r),
            k <= n,
            n == order@.len(),
            n == pos@.len(),
            mlen == records@.len(),
            forall|m: int|
                0 <= m < records@.len() ==> (#[trigger] records@[m]).pass < pos@.len(),
            forall|kk: int| 0 <= kk < order@.len() ==> (#[trigger] order@[kk]) < pos@.len(),
            forall|kk: int| 0 <= kk < order@.len() ==> pos@[(#[trigger] order@[kk]) as int] == kk,
            forall|p: int|
                0 <= p < pos@.len() ==> (#[trigger] pos@[p]) < order@.len()
                    && order@[pos@[p] as int] == p,
            forall|t: int|
                0 <= t < tl@.len() ==> entry_from_record(records@, r, #[trigger] tl@[t]),
            forall|t: int|
                0 <= t < tl@.len() ==> (#[trigger] tl@[t]).0 < pos@.len() && pos@[tl@[t].0 as int]
                    < k,
            forall|u: int, v: int|
                0 <= u < v < tl@.len() ==> pos@[(#[trigger] tl@[u]).0 as int] <= pos@[(
                #[trigger] tl@[v]).0 as int],
            forall|m: int|
                0 <= m < records@.len() && (#[trigger] records@[m]).resource == r && pos@[records@[m].pass as int]
                    < k ==> tl@.contains((records@[m].pass, records@[m].kind)),
        decreases n - k,
    {
        let p = order[k];
        let mut m: usize = 0;
        proof {
            assert(records@.take(0) =~= Seq::<AccessRecord>::empty());
            assert(timeline_spec(records@, order@.take(k as int), r) + pass_entries(
                records@.take(0),
                r,
                p,
            ) =~= tl@);
        }
        while m < mlen
            invariant
                tl@ == timeline_spec(records@, order@.take(k as int), r) + pass_entries(
                    records@.take(m as int),
                    r,
                    p,
                ),
                m <= mlen,
                k < n,
                n == order@.len(),
                n == pos@.len(),
                mlen == records@.len(),
                p == order@[k as int],
                p < pos@.len(),
                pos@[p as int] == k,
                forall|mm: int|
                    0 <= mm < records@.len() ==> (#[trigger] records@[mm]).pass < pos@.len(),
                forall|pp: int|
                    0 <= pp < pos@.len() ==> (#[trigger] pos@[pp]) < order@.len()
                        && order@[pos@[pp] as int] == pp,
                forall|t: int|
                    0 <= t < tl@.len() ==> entry_from_record(records@, r, #[trigger] tl@[t]),
                forall|t: int|
                    0 <= t < tl@.len() ==> (#[trigger] tl@[t]).0 < pos@.len()
                        && pos@[tl@[t].0 as int] <= k,
                forall|u: int, v: int|
                    0 <= u < v < tl@.len() ==> pos@[(#[trigger] tl@[u]).0 as int] <= pos@[(
                    #[trigger] tl@[v]).0 as int],
                forall|mm: int|
                    0 <= mm < records@.len() && (#[trigger] records@[mm]).resource == r
                        && pos@[records@[mm].pass as int] < k ==> tl@.contains(
                        (records@[mm].pass, records@[mm].kind),
                    ),
                forall|mm: int|
                    0 <= mm < m && (#[trigger] records@[mm]).resource == r && records@[mm].pass
                        == p ==> tl@.contains((records@[mm].pass, records@[mm].kind)),
            decreases mlen - m,
        {
            let rec = records[m];
            if rec.resource == r && rec.pass == p {
                let ghost oldtl = tl@;
                tl.push((p, rec.kind));
                proof {
                    assert(records@[m as int] == (AccessRecord { resource: r, kind: rec.kind, pass: p }));
                    assert(entry_from_record(records@, r, tl@[oldtl.len() as int]));
                    assert forall|mm: int|
                        0 <= mm < records@.len() && (#[trigger] records@[mm]).resource == r
                            && pos@[records@[mm].pass as int] < k implies tl@.contains(
                        (records@[mm].pass, records@[mm].kind),
                    ) by {
                        assert(oldtl.contains((records@[mm].pass, records@[mm].kind)));
                        let t = choose|t: int|
                            0 <= t < oldtl.len() && oldtl[t] == (records@[mm].pass, records@[mm].kind);
                        assert(tl@[t] == (records@[mm].pass, records@[mm].kind));
                    }
                    assert forall|mm: int|
                        0 <= mm < m + 1 && (#[trigger] records@[mm]).resource == r
                            && records@[mm].pass == p implies tl@.contains(
                        (records@[mm].pass, records@[mm].kind),
                    ) by {
                        if mm < m {
                            assert(oldtl.contains((records@[mm].pass, records@[mm].kind)));
                            let t = choose|t: int|
                                0 <= t < oldtl.len() && oldtl[t] == (
                                    records@[mm].pass,
                                    records@[mm].kind,
                                );
                            assert(tl@[t] == (records@[mm].pass, records@[mm].kind));
                        } else {
                            assert(tl@[oldtl.len() as int] == (records@[mm].pass, records@[mm].kind));
                        }
                    }
                }
            }
            proof {
                assert(records@.take(m as int + 1).drop_last() =~= records@.take(m as int));
                assert(records@.take(m as int + 1).last() == records@[m as int]);
                assert(tl@ =~= timeline_spec(records@, order@.take(k as int), r) + pass_entries(
                    records@.take(m as int + 1),
                    r,
                    p,
                ));
            }
            m = m + 1;
        }
        proof {
            assert(records@.take(mlen as int) =~= records@);
            assert(order@.take(k as int + 1).drop_last() =~= order@.take(k as int));
            assert(order@.take(k as int + 1).last() == order@[k as int]);
            assert(tl@ =~= timeline_spec(records@, order@.take(k as int + 1), r));
        }
        k = k + 1;
        proof {
            assert forall|mm: int|
                0 <= mm < records@.len() && (#[trigger] records@[mm]).resource == r
                    && pos@[records@[mm].pass as int] < k implies tl@.contains(
                (records@[mm].pass, records@[mm].kind),
            ) by {
                if pos@[records@[mm].pass as int] == k - 1 {
                    assert(order@[pos@[records@[mm].pass as int] as int] == records@[mm].pass);
                    assert(records@[mm].pass == p);
                }
            }
        }
    }
    proof {
        assert(order@.take(n as int) =~= order@);
        assert forall|m: int|
            0 <= m < records@.len() && (#[trigger] records@[m]).resource == r implies tl@.contains(
            (records@[m].pass, records@[m].kind),
        ) by {
            assert(pos@[records@[m].pass as int] < n);
        }
    }
    tl
}

/// Some record below `bound` touches resource `r`.
pub open spec fn has_access_before(recs: Seq<AccessRecord>, r: usize, bound: int) -> bool {
    exists|m: int| 0 <= m < bound && (#[trigger] recs[m]).resource == r
}

/// Some record below `bound` touches resource `r` from a pass placed at
/// position `v`.
pub open spec fn touches_at(
    recs: Seq<AccessRecord>,
    pos: Seq<usize>,
    r: usize,
    v: usize,
    bound: int,
) -> bool {
    exists|m: int|
        0 <= m < bound && (#[trigger] recs[m]).resource == r && pos[recs[m].pass as int] == v
}

/// Computes each resource's live range: the first and last execution
/// position at which it is accessed, or `None` for an unused resource.
fn compute_live(n_resources: usize, records: &Vec<AccessRecord>, pos: &Vec<usize>) -> (live: Vec<
    Option<(usize, usize)>,
>)
    requires
        forall|m: int|
            0 <= m < records@.len() ==> (#[trigger] records@[m]).resource < n_resources
                && records@[m].pass < pos@.len(),
    ensures
        live@.len() == n_resources,
        forall|r: int|
            0 <= r < n_resources ==> ((#[trigger] live@[r]) is Some <==> has_access_before(
                records@,
                r as usize,
                records@.len() as int,
            )),
        forall|m: int|
            0 <= m < records@.len() ==> (#[trigger] live@[(records@[m]).resource as int]) is Some
                && live@[records@[m].resource as int].unwrap().0 <= pos@[records@[m].pass as int]
                <= live@[records@[m].resource as int].unwrap().1,
        forall|r: int|
            0 <= r < n_resources && (#[trigger] live@[r]) is Some ==> touches_at(
                records@,
                pos@,
                r as usize,
                live@[r].unwrap().0,
                records@.len() as int,
            ) && touches_at(records@, pos@, r as usize, live@[r].unwrap().1, records@.len() as int)
                && live@[r].unwrap().0 <= live@[r].unwrap().1,
{
    let mut live: Vec<Option<(usize, usize)>> = Vec::new();
    let mut i: usize = 0;
    while i < n_resources
        invariant
            i <= n_resources,
            live@.len() == i,
            forall|r: int| 0 <= r < i ==> (#[trigger] live@[r]) is None,
        decreases n_resources - i,
    {
        live.push(Option::None);
        i = i + 1;
    }
    let mlen = records.len();
    let mut m: usize = 0;
    while m < mlen
        invariant
            m <= mlen,
            mlen == records@.len(),
            live@.len() == n_resources,
            forall|mm: int|
                0 <= mm < records@.len() ==> (#[trigger] records@[mm]).resource < n_resources
                    && records@[mm].pass < pos@.len(),
            forall|r: int|
                0 <= r < n_resources ==> ((#[trigger] live@[r]) is Some <==> has_access_before(
                    records@,
                    r as usize,
                    m as int,
                )),
            forall|mm: int|
                0 <= mm < m ==> (#[trigger] live@[(records@[mm]).resource as int]) is Some
                    && live@[records@[mm].resource as int].unwrap().0 <= pos@[records@[mm].pass as int]
                    <= live@[records@[mm].resource as int].unwrap().1,
            forall|r: int|
                0 <= r < n_resources && (#[trigger] live@[r]) is Some ==> touches_at(
                    records@,
                    pos@,
                    r as usize,
                    live@[r].unwrap().0,
                    m as int,
                ) && touches_at(records@, pos@, r as usize, live@[r].unwrap().1, m as int)
                    && live@[r].unwrap().0 <= live@[r].unwrap().1,
        decreases mlen - m,
    {
        let rec = records[m];
        let p = pos[rec.pass];
        let cur = live[rec.resource];
        match cur {
            Option::None => {
                live.set(rec.resource, Option::Some((p, p)));
            },
            Option::Some((f, l)) => {
                let nf = if p < f {
                    p
                } else {
                    f
                };
                let nl = if p > l {
                    p
                } else {
                    l
                };
                live.set(rec.resource, Option::Some((nf, nl)));
            },
        }
        m = m + 1;
    }
    live
}

/// Only transient, non-exported resources may share backing memory.
pub open spec fn may_alias(info: ResourceInfo) -> bool {
    info.class is Transient && info.export_access is None
}

/// Two live ranges do not overlap (an unused resource overlaps nothing).
pub open spec fn ranges_disjoint(a: Option<(usize, usize)>, b: Option<(usize, usize)>) -> bool {
    match (a, b) {
        (Option::Some(x), Option::Some(y)) => x.1 < y.0 || y.1 < x.0,
        _ => true,
    }
}

/// `c` is an admissible backing slot for resource `r`, given the
/// assignments made for the resources before `r`: an earlier transient,
/// non-exported slot root with the same descriptor, every present sharer
/// of which has a live range disjoint from `r`'s.
pub open spec fn backing_candidate_ok(
    resources: Seq<ResourceInfo>,
    live: Seq<Option<(usize, usize)>>,
    backing: Seq<usize>,
    r: int,
    c: int,
) -> bool {
    &&& 0 <= c < r
    &&& backing[c] as int == c
    &&& may_alias(resources[c])
    &&& resources[c].desc == resources[r].desc
    &&& forall|s: int|
        0 <= s < r && (#[trigger] backing[s]) as int == c ==> ranges_disjoint(live[s], live[r])
}

/// The candidate predicate only reads assignments below `r`, so it is
/// unchanged by extending the assignment.
proof fn lemma_candidate_ok_prefix(
    resources: Seq<ResourceInfo>,
    live: Seq<Option<(usize, usize)>>,
    b1: Seq<usize>,
    b2: Seq<usize>,
    r: int,
    c: int,
)
    requires
        0 <= r <= b1.len(),
        b1.len() <= b2.len(),
        forall|s: int| 0 <= s < b1.len() ==> b1[s] == b2[s],
    ensures
        backing_candidate_ok(resources, live, b1, r, c) == backing_candidate_ok(
            resources,
            live,
            b2,
            r,
            c,
        ),
{
    if backing_candidate_ok(resources, live, b1, r, c) {
        assert forall|s: int|
            0 <= s < r && (#[trigger] b2[s]) as int == c implies ranges_disjoint(
            live[s],
            live[r],
        ) by {
            assert(b1[s] == b2[s]);
        }
    }
    if backing_candidate_ok(resources, live, b2, r, c) {
        assert forall|s: int|
            0 <= s < r && (#[trigger] b1[s]) as int == c implies ranges_disjoint(
            live[s],
            live[r],
        ) by {
            assert(b1[s] == b2[s]);
        }
    }
}

/// Whether two live ranges do not overlap.
fn ranges_disjoint_exec(a: Option<(usize, usize)>, b: Option<(usize, usize)>) -> (r: bool)
    ensures
        r == ranges_disjoint(a, b),
{
    match (a, b) {
        (Option::Some(x), Option::Some(y)) => x.1 < y.0 || y.1 < x.0,
        _ => true,
    }
}

/// Assigns each resource a backing slot, greedily sharing a slot between
/// transient resources of equal descriptor whose live ranges are disjoint
/// (bounding peak memory). Temporal, imported and exported resources keep
/// their own slot.
fn assign_backing(resources: &Vec<ResourceInfo>, live: &Vec<Option<(usize, usize)>>) -> (backing:
    Vec<usize>)
    requires
        live@.len() == resources@.len(),
    ensures
        backing@.len() == resources@.len(),
        forall|r: int| 0 <= r < backing@.len() ==> (#[trigger] backing@[r]) <= r,
        forall|r: int|
            0 <= r < backing@.len() && !may_alias(resources@[r]) ==> (#[trigger] backing@[r]) == r,
        forall|a: int, b: int|
            0 <= a < b < backing@.len() && (#[trigger] backing@[a]) == (#[trigger] backing@[b])
                ==> may_alias(resources@[a]) && may_alias(resources@[b]) && resources@[a].desc
                == resources@[b].desc && ranges_disjoint(live@[a], live@[b]),
        forall|r: int|
            0 <= r < backing@.len() && may_alias(resources@[r]) ==> ((#[trigger] backing@[r]) < r
                ==> backing_candidate_ok(resources@, live@, backing@, r, backing@[r] as int)) && (
            forall|c: int|
                0 <= c < backing@[r] ==> !backing_candidate_ok(resources@, live@, backing@, r, c)),
{
    let nr = resources.len();
    let mut backing: Vec<usize> = Vec::new();
    let mut r: usize = 0;
    while r < nr
        invariant
            r <= nr,
            nr == resources@.len(),
            nr == live@.len(),
            backing@.len() == r,
            forall|t: int| 0 <= t < r ==> (#[trigger] backing@[t]) <= t,
            forall|t: int|
                0 <= t < r && !may_alias(resources@[t]) ==> (#[trigger] backing@[t]) == t,
            forall|a: int, b: int|
                0 <= a < b < r && (#[trigger] backing@[a]) == (#[trigger] backing@[b])
                    ==> may_alias(resources@[a]) && may_alias(resources@[b]) && resources@[a].desc
                    == resources@[b].desc && ranges_disjoint(live@[a], live@[b]),
            forall|t: int|
                0 <= t < r && may_alias(resources@[t]) ==> ((#[trigger] backing@[t]) < t
                    ==> backing_candidate_ok(resources@, live@, backing@, t, backing@[t] as int))
                    && (forall|c: int|
                    0 <= c < backing@[t] ==> !backing_candidate_ok(
                        resources@,
                        live@,
                        backing@,
                        t,
                        c,
                    )),
        decreases nr - r,
    {
        let info = resources[r];
        let mut pick: usize = r;
        if info.class == LifetimeClass::Transient && info.export_access.is_none() {
            let mut c: usize = 0;
            while c < r
                invariant
                    c <= r,
                    r < nr,
                    nr == resources@.len(),
                    nr == live@.len(),
                    backing@.len() == r,
                    may_alias(resources@[r as int]),
                    info == resources@[r as int],
                    forall|t: int| 0 <= t < r ==> (#[trigger] backing@[t]) <= t,
                    pick == r || (pick < r && may_alias(resources@[pick as int])
                        && backing@[pick as int] == pick && resources@[pick as int].desc
                        == info.desc && (forall|s: int|
                        0 <= s < r && (#[trigger] backing@[s]) == pick ==> ranges_disjoint(
                            live@[s],
                            live@[r as int],
                        ))),
                    pick == r ==> (forall|c2: int|
                        0 <= c2 < c ==> !backing_candidate_ok(
                            resources@,
                            live@,
                            backing@,
                            r as int,
                            c2,
                        )),
                    pick != r ==> backing_candidate_ok(
                        resources@,
                        live@,
                        backing@,
                        r as int,
                        pick as int,
                    ) && (forall|c2: int|
                        0 <= c2 < pick ==> !backing_candidate_ok(
                            resources@,
                            live@,
                            backing@,
                            r as int,
                            c2,
                        )),
                decreases r - c,
            {
                if pick == r {
                    let cinfo = resources[c];
                    let same_backing = backing[c] == c;
                    if same_backing && cinfo.class == LifetimeClass::Transient
                        && cinfo.export_access.is_none() && cinfo.desc == info.desc {
                        // Check that every resource already sharing slot `c`
                        // is disjoint from `r`.
                        let mut ok = true;
                        let mut s: usize = 0;
                        while s < r
                            invariant
                                s <= r,
                                r < nr,
                                nr == live@.len(),
                                backing@.len() == r,
                                c < r,
                                ok == (forall|t: int|
                                    0 <= t < s && (#[trigger] backing@[t]) == c
                                        ==> ranges_disjoint(live@[t], live@[r as int])),
                            decreases r - s,
                        {
                            if backing[s] == c {
                                if !ranges_disjoint_exec(live[s], live[r]) {
                                    ok = false;
                                }
                            }
                            s = s + 1;
                        }
                        if ok {
                            pick = c;
                            proof {
                                assert(backing_candidate_ok(
                                    resources@,
                                    live@,
                                    backing@,
                                    r as int,
                                    c as int,
                                ));
                            }
                        } else {
                            proof {
                                assert(!backing_candidate_ok(
                                    resources@,
                                    live@,
                                    backing@,
                                    r as int,
                                    c as int,
                                ));
                            }
                        }
                    } else {
                        proof {
                            assert(!backing_candidate_ok(
                                resources@,
                                live@,
                                backing@,
                                r as int,
                                c as int,
                            ));
                        }
                    }
                }
                c = c + 1;
            }
        }
        let ghost oldb = backing@;
        backing.push(pick);
        proof {
            assert forall|a: int, b: int|
                0 <= a < b < r + 1 && (#[trigger] backing@[a]) == (#[trigger] backing@[b]) implies
                may_alias(resources@[a]) && may_alias(resources@[b]) && resources@[a].desc
                    == resources@[b].desc && ranges_disjoint(live@[a], live@[b]) by {
                if b == r {
                    assert(backing@[a] == oldb[a]);
                    assert(oldb[a] <= a);
                    assert(backing@[b] == pick);
                    assert(pick != r);
                    assert(pick < r);
                    if a != pick {
                        assert(oldb[a] == pick && oldb[pick as int] == pick);
                        if a < pick {
                            assert(may_alias(resources@[a]) && resources@[a].desc
                                == resources@[pick as int].desc);
                        } else {
                            assert(may_alias(resources@[a]) && resources@[pick as int].desc
                                == resources@[a].desc);
                        }
                    }
                    assert(ranges_disjoint(live@[a], live@[r as int]));
                }
            }
            assert forall|t: int|
                0 <= t < r + 1 && may_alias(resources@[t]) implies ((#[trigger] backing@[t]) < t
                    ==> backing_candidate_ok(resources@, live@, backing@, t, backing@[t] as int))
                    && (forall|c2: int|
                    0 <= c2 < backing@[t] ==> !backing_candidate_ok(
                        resources@,
                        live@,
                        backing@,
                        t,
                        c2,
                    )) by {
                if t < r {
                    assert(backing@[t] == oldb[t]);
                    if backing@[t] < t {
                        assert(backing_candidate_ok(resources@, live@, oldb, t, oldb[t] as int));
                        lemma_candidate_ok_prefix(
                            resources@,
                            live@,
                            oldb,
                            backing@,
                            t,
                            oldb[t] as int,
                        );
                    }
                    assert forall|c2: int|
                        0 <= c2 < backing@[t] implies !backing_candidate_ok(
                        resources@,
                        live@,
                        backing@,
                        t,
                        c2,
                    ) by {
                        assert(!backing_candidate_ok(resources@, live@, oldb, t, c2));
                        lemma_candidate_ok_prefix(resources@, live@, oldb, backing@, t, c2);
                    }
                } else {
                    assert(backing@[t] == pick);
                    if backing@[t] < t {
                        assert(backing_candidate_ok(resources@, live@, oldb, r as int, pick as int));
                        lemma_candidate_ok_prefix(
                            resources@,
                            live@,
                            oldb,
                            backing@,
                            r as int,
                            pick as int,
                        );
                    }
                    assert forall|c2: int|
                        0 <= c2 < backing@[t] implies !backing_candidate_ok(
                        resources@,
                        live@,
                        backing@,
                        t,
                        c2,
                    ) by {
                        assert(!backing_candidate_ok(resources@, live@, oldb, r as int, c2));
                        lemma_candidate_ok_prefix(resources@, live@, oldb, backing@, r as int, c2);
                    }
                }
            }
        }
        r = r + 1;
    }
    backing
}

/// A resource's timeline extended with its export transition: an exported
/// resource is finally brought into the access state promised to the
/// caller, modeled as one more access at the end of the plan (`end_pass`,
/// one past every real pass, stands for "end of frame").
pub open spec fn ext_timeline(
    tl: Seq<(usize, AccessKind)>,
    export: Option<AccessKind>,
    end_pass: usize,
) -> Seq<(usize, AccessKind)> {
    match export {
        Option::Some(e) => tl.push((end_pass, e)),
        Option::None => tl,
    }
}

/// The access state a resource is left in after the frame: its last
/// access (export included), or its initial state if it was never touched.
pub open spec fn final_state(
    init: Option<AccessKind>,
    ext: Seq<(usize, AccessKind)>,
) -> Option<AccessKind> {
    if ext.len() > 0 {
        Option::Some(ext.last().1)
    } else {
        init
    }
}

/// The compiled execution plan of one graph instance.
///
/// Executing it means: for each position `k`, issue every barrier `b`
/// (across all resources) with `b.before_pass == order[k]`, then invoke
/// the callback of pass `order[k]`; barriers whose `before_pass` equals
/// the number of passes are issued once at the end of the frame.
pub struct CompiledPlan {
    /// The passes in execution order.
    pub order: Vec<usize>,
    /// Inverse of `order`: the execution position of each pass.
    pub pos: Vec<usize>,
    /// Per resource, its accesses sorted by execution position.
    pub timelines: Vec<Vec<(usize, AccessKind)>>,
    /// Per resource, the barriers its timeline requires, in order.
    pub barriers: Vec<Vec<Barrier>>,
    /// Per resource, the execution positions of its first and last access.
    pub live: Vec<Option<(usize, usize)>>,
    /// Per resource, the backing slot it was assigned (aliasing).
    pub backing: Vec<usize>,
    /// Per resource, the access state the frame leaves it in (what a
    /// temporal resource commits back into the cache).
    pub last_state: Vec<Option<AccessKind>>,
}

/// The per-resource part of a valid plan: the timeline is exactly this
/// resource's declared accesses in execution order (each record
/// contributing exactly one entry), the barrier list is exactly what the
/// synthesizer requires for it, and the final state is the state after
/// its last access.
pub open spec fn resource_compiled(
    g: RenderGraph,
    order: Seq<usize>,
    pos: Seq<usize>,
    r: int,
    tl: Seq<(usize, AccessKind)>,
    bar: Seq<Barrier>,
    ls: Option<AccessKind>,
) -> bool {
    let info = g.resources@[r];
    let ext = ext_timeline(tl, info.export_access, g.passes@.len() as usize);
    &&& tl == timeline_spec(g.records@, order, r as usize)
    &&& (forall|t: int| 0 <= t < tl.len() ==> entry_from_record(g.records@, r as usize, #[trigger] tl[t]))
    &&& (forall|m: int|
        0 <= m < g.records@.len() && (#[trigger] g.records@[m]).resource == r ==> tl.contains(
            (g.records@[m].pass, g.records@[m].kind),
        ))
    &&& (forall|u: int, v: int|
        0 <= u < v < tl.len() ==> pos[(#[trigger] tl[u]).0 as int] <= pos[(#[trigger] tl[v]).0 as int])
    &&& (forall|t: int| 0 <= t < tl.len() ==> (#[trigger] tl[t]).0 < pos.len())
    &&& bar == barrier_seq_init(r as usize, info.init_access, ext)
    &&& ls == final_state(info.init_access, ext)
}

/// Everything the compiler guarantees of a successful plan for graph `g`:
/// `order`/`pos` are inverse bijections on the passes; every conflicting
/// record pair runs in declaration order; each `order[k]` is the smallest
/// pass not placed earlier whose predecessors are all placed earlier (the
/// declaration-order tie-break); every resource's timeline and barrier
/// list are exact; live ranges are the exact first/last access positions;
/// and backing slots are shared only between transient, non-exported
/// resources of equal descriptor with disjoint live ranges, each resource
/// taking the smallest admissible slot. These clauses determine every
/// component of the plan from the graph alone, so identical inputs
/// compile to identical plans.
pub open spec fn plan_valid(plan: CompiledPlan, g: RenderGraph) -> bool {
    let n = g.passes@.len() as int;
    let nr = g.resources@.len() as int;
    &&& plan.order@.len() == n
    &&& plan.pos@.len() == n
    &&& (forall|k: int| 0 <= k < n ==> (#[trigger] plan.order@[k]) < n)
    &&& (forall|p: int| 0 <= p < n ==> (#[trigger] plan.pos@[p]) < n)
    &&& (forall|k: int| 0 <= k < n ==> plan.pos@[(#[trigger] plan.order@[k]) as int] == k)
    &&& (forall|p: int| 0 <= p < n ==> plan.order@[(#[trigger] plan.pos@[p]) as int] == p)
    &&& respects_hazards(g.records@, plan.pos@)
    &&& (forall|k: int, q: int|
        0 <= k < n && 0 <= q < n && !placed_before(plan.order@, k, q as usize)
            && #[trigger] deps_placed(g.records@, plan.order@, k, q as usize) ==> plan.order@[k]
            <= q)
    &&& plan.timelines@.len() == nr
    &&& plan.barriers@.len() == nr
    &&& plan.live@.len() == nr
    &&& plan.backing@.len() == nr
    &&& plan.last_state@.len() == nr
    &&& (forall|r: int|
        0 <= r < nr ==> #[trigger] resource_compiled(
            g,
            plan.order@,
            plan.pos@,
            r,
            plan.timelines@[r]@,
            plan.barriers@[r]@,
            plan.last_state@[r],
        ))
    &&& (forall|r: int|
        0 <= r < nr ==> ((#[trigger] plan.live@[r]) is Some <==> has_access_before(
            g.records@,
            r as usize,
            g.records@.len() as int,
        )))
    &&& (forall|m: int|
        0 <= m < g.records@.len() ==> (#[trigger] plan.live@[(g.records@[m]).resource as int]) is Some
            && plan.live@[g.records@[m].resource as int].unwrap().0 <= plan.pos@[g.records@[m].pass as int]
            <= plan.live@[g.records@[m].resource as int].unwrap().1)
    &&& (forall|r: int|
        0 <= r < nr && (#[trigger] plan.live@[r]) is Some ==> touches_at(
            g.records@,
            plan.pos@,
            r as usize,
            plan.live@[r].unwrap().0,
            g.records@.len() as int,
        ) && touches_at(
            g.records@,
            plan.pos@,
            r as usize,
            plan.live@[r].unwrap().1,
            g.records@.len() as int,
        ) && plan.live@[r].unwrap().0 <= plan.live@[r].unwrap().1)
    &&& (forall|r: int| 0 <= r < nr ==> (#[trigger] plan.backing@[r]) <= r)
    &&& (forall|r: int|
        0 <= r < nr && !may_alias(g.resources@[r]) ==> (#[trigger] plan.backing@[r]) == r)
    &&& (forall|a: int, b: int|
        0 <= a < b < nr && (#[trigger] plan.backing@[a]) == (#[trigger] plan.backing@[b])
            ==> may_alias(g.resources@[a]) && may_alias(g.resources@[b]) && g.resources@[a].desc
            == g.resources@[b].desc && ranges_disjoint(plan.live@[a], plan.live@[b]))
    &&& (forall|r: int|
        0 <= r < nr && may_alias(g.resources@[r]) ==> ((#[trigger] plan.backing@[r]) < r
            ==> backing_candidate_ok(
            g.resources@,
            plan.live@,
            plan.backing@,
            r,
            plan.backing@[r] as int,
        )) && (forall|c: int|
            0 <= c < plan.backing@[r] ==> !backing_candidate_ok(
                g.resources@,
                plan.live@,
                plan.backing@,
                r,
                c,
            )))
}

/// Law (no hazard window in a compiled plan): for every resource of a
/// valid plan and every position of its extended timeline whose preceding
/// state forms a hazard with the access performed there, the plan's
/// barrier list for that resource contains the barrier that closes the
/// window, placed before the consuming pass. No required barrier is ever
/// omitted.
pub proof fn lemma_plan_no_hazard_window(g: RenderGraph, plan: CompiledPlan, r: int, i: int)
    requires
        plan_valid(plan, g),
        0 <= r < g.resources@.len(),
        ({
            let ext = ext_timeline(
                plan.timelines@[r]@,
                g.resources@[r].export_access,
                g.passes@.len() as usize,
            );
            &&& 0 <= i < ext.len()
            &&& crate::access::state_before(g.resources@[r].init_access, ext, i) is Some
            &&& crate::access::spec_needs_barrier(
                crate::access::state_before(g.resources@[r].init_access, ext, i).unwrap(),
                ext[i].1,
            )
        }),
    ensures
        ({
            let ext = ext_timeline(
                plan.timelines@[r]@,
                g.resources@[r].export_access,
                g.passes@.len() as usize,
            );
            plan.barriers@[r]@.contains(
                (Barrier {
                    resource: r as usize,
                    prev: crate::access::state_before(
                        g.resources@[r].init_access,
                        ext,
                        i,
                    ).unwrap(),
                    next: ext[i].1,
                    before_pass: ext[i].0,
                }),
            )
        }),
{
    let ext = ext_timeline(
        plan.timelines@[r]@,
        g.resources@[r].export_access,
        g.passes@.len() as usize,
    );
    assert(resource_compiled(
        g,
        plan.order@,
        plan.pos@,
        r,
        plan.timelines@[r]@,
        plan.barriers@[r]@,
        plan.last_state@[r],
    ));
    crate::access::lemma_no_hazard_window(r as usize, g.resources@[r].init_access, ext, i);
}

/// A copy of a timeline (element-wise; entries are plain values).
fn clone_entries(tl: &Vec<(usize, AccessKind)>) -> (r: Vec<(usize, AccessKind)>)
    ensures
        r@ == tl@,
{
    let mut r: Vec<(usize, AccessKind)> = Vec::new();
    let n = tl.len();
    let mut i: usize = 0;
    while i < n
        invariant
            i <= n,
            n == tl@.len(),
            r@ == tl@.take(i as int),
        decreases n - i,
    {
        r.push(tl[i]);
        proof {
            assert(r@ =~= tl@.take(i as int + 1));
        }
        i = i + 1;
    }
    proof {
        assert(tl@.take(n as int) =~= tl@);
    }
    r
}

impl RenderGraph {
    /// Compiles the declared passes and accesses into an execution plan,
    /// or reports the passes a dependency cycle leaves unschedulable (the
    /// cycle's members together with every pass waiting on them).
    ///
    /// On success the plan satisfies `plan_valid`; on failure the reported
    /// passes form a `cycle_certificate`, which (per
    /// `lemma_cycle_excludes_numbering`) rules out every hazard-respecting
    /// pass numbering, so failure happens only on truly cyclic graphs.
    pub fn compile(&self) -> (res: Result<CompiledPlan, GraphError>)
        requires
            self.wf(),
        ensures
            res is Ok ==> plan_valid(res->Ok_0, *self),
            res is Err ==> (res matches Err(GraphError::GraphCycle { passes, names })
                && cycle_certificate(self.records@, passes@) && names@.len() == passes@.len() && (
            forall|k: int| 0 <= k < passes@.len() ==> (#[trigger] passes@[k]) < self.passes@.len())
                && (forall|k: int|
                0 <= k < passes@.len() ==> names@[k] == self.passes@[(
                #[trigger] passes@[k]) as int].name) && (forall|pm: Seq<usize>|
                pm.len() == self.passes@.len() ==> !(#[trigger] respects_hazards(
                    self.records@,
                    pm,
                )))),
    {
        let n = self.passes.len();
        let edges = build_edges(&self.records);
        proof {
            assert forall|e: int|
                0 <= e < edges@.len() implies (#[trigger] edges@[e]).0 < n && edges@[e].1 < n
                && edges@[e].0 != edges@[e].1 by {
                assert(edge_from_hazard(self.records@, edges@[e]));
                let (i, j): (int, int) = choose|i: int, j: int|
                    #[trigger] hazard_pair(self.records@, i, j) && edges@[e] == (
                        self.records@[i].pass,
                        self.records@[j].pass,
                    );
                assert(self.records@[i].pass < n && self.records@[j].pass < n);
            }
        }
        match topo_order(n, &edges) {
            Result::Err(stuck) => {
                let mut names: Vec<String> = Vec::new();
                let klen = stuck.len();
                let mut k: usize = 0;
                while k < klen
                    invariant
                        k <= klen,
                        klen == stuck@.len(),
                        names@.len() == k,
                        self.wf(),
                        forall|kk: int|
                            0 <= kk < stuck@.len() ==> (#[trigger] stuck@[kk])
                                < self.passes@.len(),
                        forall|kk: int|
                            0 <= kk < k ==> names@[kk] == self.passes@[(
                            #[trigger] stuck@[kk]) as int].name,
                    decreases klen - k,
                {
                    let p = stuck[k];
                    names.push(self.passes[p].name.clone());
                    k = k + 1;
                }
                proof {
                    assert forall|kk: int|
                        0 <= kk < stuck@.len() implies cycle_member(
                        self.records@,
                        stuck@,
                        #[trigger] stuck@[kk],
                    ) by {
                        let e = choose|e: int|
                            0 <= e < edges@.len() && (#[trigger] edges@[e]).1 == stuck@[kk]
                                && stuck@.contains(edges@[e].0);
                        assert(edge_from_hazard(self.records@, edges@[e]));
                        let (i, j): (int, int) = choose|i: int, j: int|
                            #[trigger] hazard_pair(self.records@, i, j) && edges@[e] == (
                                self.records@[i].pass,
                                self.records@[j].pass,
                            );
                        assert(self.records@[j].pass == stuck@[kk]);
                        assert(stuck@.contains(self.records@[i].pass));
                    }
                    assert(cycle_certificate(self.records@, stuck@));
                    assert forall|pm: Seq<usize>|
                        pm.len() == self.passes@.len() implies !(#[trigger] respects_hazards(
                        self.records@,
                        pm,
                    )) by {
                        if respects_hazards(self.records@, pm) {
                            lemma_cycle_excludes_numbering(self.records@, stuck@, pm);
                        }
                    }
                }
                Err(GraphError::GraphCycle { passes: stuck, names })
            },
            Result::Ok((order, pos)) => {
                let nr = self.resources.len();
                let mut timelines: Vec<Vec<(usize, AccessKind)>> = Vec::new();
                let mut barriers: Vec<Vec<Barrier>> = Vec::new();
                let mut last_state: Vec<Option<AccessKind>> = Vec::new();
                let mut r: usize = 0;
                while r < nr
                    invariant
                        r <= nr,
                        nr == self.resources@.len(),
                        n == self.passes@.len(),
                        self.wf(),
                        timelines@.len() == r,
                        barriers@.len() == r,
                        last_state@.len() == r,
                        order@.len() == n,
                        pos@.len() == n,
                        forall|kk: int| 0 <= kk < n ==> (#[trigger] order@[kk]) < n,
                        forall|pp: int| 0 <= pp < n ==> (#[trigger] pos@[pp]) < n,
                        forall|kk: int|
                            0 <= kk < n ==> pos@[(#[trigger] order@[kk]) as int] == kk,
                        forall|pp: int|
                            0 <= pp < n ==> order@[(#[trigger] pos@[pp]) as int] == pp,
                        forall|rr: int|
                            0 <= rr < r ==> #[trigger] resource_compiled(
                                *self,
                                order@,
                                pos@,
                                rr,
                                timelines@[rr]@,
                                barriers@[rr]@,
                                last_state@[rr],
                            ),
                    decreases nr - r,
                {
                    let tl = timeline_for(&self.records, &order, &pos, r);
                    let info = self.resources[r];
                    let mut ext = clone_entries(&tl);
                    match info.export_access {
                        Option::Some(e) => {
                            ext.push((n, e));
                        },
                        Option::None => {},
                    }
                    proof {
                        assert(ext@ == ext_timeline(tl@, info.export_access, n));
                    }
                    let bar = synthesize(r, info.init_access, &ext);
                    let ls: Option<AccessKind> = if ext.len() > 0 {
                        let last_entry = ext[ext.len() - 1];
                        Option::Some(last_entry.1)
                    } else {
                        info.init_access
                    };
                    proof {
                        assert(ls == final_state(info.init_access, ext@));
                        assert(resource_compiled(*self, order@, pos@, r as int, tl@, bar@, ls));
                    }
                    timelines.push(tl);
                    barriers.push(bar);
                    last_state.push(ls);
                    r = r + 1;
                }
                let live = compute_live(nr, &self.records, &pos);
                let backing = assign_backing(&self.resources, &live);
                proof {
                    assert forall|i: int, j: int|
                        hazard_pair(self.records@, i, j) implies pos@[self.records@[i].pass as int]
                        < pos@[self.records@[j].pass as int] by {
                        assert(edges@.contains((self.records@[i].pass, self.records@[j].pass)));
                        let k = choose|k: int|
                            0 <= k < edges@.len() && edges@[k] == (
                                self.records@[i].pass,
                                self.records@[j].pass,
                            );
                        assert(pos@[edges@[k].0 as int] < pos@[edges@[k].1 as int]);
                    }
                    assert forall|k: int, q: int|
                        0 <= k < n && 0 <= q < n && !placed_before(order@, k, q as usize)
                            && #[trigger] deps_placed(self.records@, order@, k, q as usize) implies
                        order@[k] <= q by {
                        assert(edge_deps_placed(edges@, order@, k, q as usize)) by {
                            assert forall|e: int|
                                0 <= e < edges@.len() && (#[trigger] edges@[e]).1
                                    == q as usize implies placed_before(
                                order@,
                                k,
                                edges@[e].0,
                            ) by {
                                assert(edge_from_hazard(self.records@, edges@[e]));
                                let (i, j): (int, int) = choose|i: int, j: int|
                                    #[trigger] hazard_pair(self.records@, i, j) && edges@[e] == (
                                        self.records@[i].pass,
                                        self.records@[j].pass,
                                    );
                                assert(pass_edge(self.records@, edges@[e].0, q as usize));
                            }
                        }
                    }
                }
                let plan = CompiledPlan { order, pos, timelines, barriers, live, backing, last_state };
                Ok(plan)
            },
        }
    }
}

/// Resource `rr` of the graph is a temporal resource backed by cache slot
/// `b` whose frame left it in a known state (so it has something to
/// commit).
pub open spec fn commits_slot(g: RenderGraph, plan: CompiledPlan, rr: int, b: usize) -> bool {
    &&& 0 <= rr < g.resources@.len()
    &&& g.resources@[rr].temporal_slot == Option::Some(b)
    &&& plan.last_state@[rr] is Some
}

/// `cs` overlaid on `base`: the committed state when one exists, else the
/// state the entry already had.
pub open spec fn committed_or(
    base: Option<AccessKind>,
    cs: Option<Option<AccessKind>>,
) -> Option<AccessKind> {
    match cs {
        Option::Some(s) => s,
        Option::None => base,
    }
}

/// The state committed into cache slot `b` by the resources below `upto`:
/// the last committer wins; `None` when no resource below `upto` commits
/// the slot.
pub open spec fn committed_state(
    g: RenderGraph,
    plan: CompiledPlan,
    b: usize,
    upto: int,
) -> Option<Option<AccessKind>>
    decreases upto,
{
    if upto <= 0 {
        Option::None
    } else if commits_slot(g, plan, upto - 1, b) {
        Option::Some(plan.last_state@[upto - 1])
    } else {
        committed_state(g, plan, b, upto - 1)
    }
}

impl RenderGraph {
    /// Commits every temporal resource's end-of-frame access state back
    /// into the cache, so the next frame's timeline starts from it. Only
    /// the `last_access` of the committed entries changes; if the same
    /// slot is committed by several resources, the last one wins. Fails
    /// with `StaleHandle` exactly when some committed slot no longer
    /// denotes a live cache entry.
    #[verifier::rlimit(100)]
    pub fn commit_temporal(&self, plan: &CompiledPlan, cache: &mut TemporalCache) -> (r: Result<
        (),
        GraphError,
    >)
        requires
            self.wf(),
            old(cache).wf(),
            plan_valid(*plan, *self),
        ensures
            final(cache).wf(),
            final(cache).entries@.len() == old(cache).entries@.len(),
            forall|i: int|
                0 <= i < old(cache).entries@.len() ==> (#[trigger] final(cache).entries@[i]).name
                    == old(cache).entries@[i].name && final(cache).entries@[i].backing == old(
                    cache,
                ).entries@[i].backing && final(cache).entries@[i].desc == old(
                    cache,
                ).entries@[i].desc && final(cache).entries@[i].live == old(
                    cache,
                ).entries@[i].live,
            r is Ok <==> (forall|rr: int, b: usize|
                #[trigger] commits_slot(*self, *plan, rr, b) ==> b < old(cache).entries@.len()
                    && old(cache).entries@[b as int].live),
            r is Err ==> r == Err::<(), GraphError>(GraphError::StaleHandle),
            r is Ok ==> (forall|i: int|
                0 <= i < old(cache).entries@.len() ==> (#[trigger] final(cache).entries@[i]).last_access == committed_or(
                    old(cache).entries@[i].last_access,
                    committed_state(*self, *plan, i as usize, self.resources@.len() as int),
                )),
    {
        let nr = self.resources.len();
        let mut rr: usize = 0;
        while rr < nr
            invariant
                rr <= nr,
                nr == self.resources@.len(),
                self.wf(),
                plan.last_state@.len() == nr,
                cache.wf(),
                cache.entries@.len() == old(cache).entries@.len(),
                forall|i: int|
                    0 <= i < old(cache).entries@.len() ==> (#[trigger] cache.entries@[i]).name
                        == old(cache).entries@[i].name && cache.entries@[i].backing == old(
                        cache,
                    ).entries@[i].backing && cache.entries@[i].desc == old(cache).entries@[i].desc
                        && cache.entries@[i].live == old(cache).entries@[i].live,
                forall|r2: int, b: usize|
                    #[trigger] commits_slot(*self, *plan, r2, b) && r2 < rr ==> b < old(
                        cache,
                    ).entries@.len() && old(cache).entries@[b as int].live,
                forall|i: int|
                    0 <= i < old(cache).entries@.len() ==> (#[trigger] cache.entries@[i]).last_access
                        == committed_or(
                        old(cache).entries@[i].last_access,
                        committed_state(*self, *plan, i as usize, rr as int),
                    ),
            decreases nr - rr,
        {
            let info = self.resources[rr];
            let ghost prev = cache.entries@;
            match (info.temporal_slot, plan_last_state(plan, rr)) {
                (Option::Some(b), Option::Some(s)) => {
                    proof {
                        assert(commits_slot(*self, *plan, rr as int, b));
                    }
                    match cache.commit_last_access(b, s) {
                        Result::Ok(()) => {
                            proof {
                                assert(cache.entries@[b as int].last_access == Option::Some(s));
                                assert(plan.last_state@[rr as int] == Option::Some(s));
                                assert forall|i: int|
                                    0 <= i < old(cache).entries@.len() implies (
                                #[trigger] cache.entries@[i]).last_access == committed_or(
                                    old(cache).entries@[i].last_access,
                                    committed_state(*self, *plan, i as usize, rr + 1),
                                ) by {
                                    if i == b {
                                        assert(committed_state(*self, *plan, i as usize, rr + 1)
                                            == Option::Some(plan.last_state@[rr as int]));
                                    } else {
                                        assert(!commits_slot(*self, *plan, rr as int, i as usize));
                                        assert(committed_state(*self, *plan, i as usize, rr + 1)
                                            == committed_state(*self, *plan, i as usize, rr as int));
                                        assert(cache.entries@[i] == prev[i]);
                                    }
                                }
                            }
                        },
                        Result::Err(_) => {
                            proof {
                                assert(!(b < old(cache).entries@.len() && old(
                                    cache,
                                ).entries@[b as int].live));
                            }
                            return Err(GraphError::StaleHandle);
                        },
                    }
                },
                _ => {
                    proof {
                        assert(forall|b: usize| !commits_slot(*self, *plan, rr as int, b));
                        assert forall|i: int|
                            0 <= i < old(cache).entries@.len() implies (
                        #[trigger] cache.entries@[i]).last_access == committed_or(
                            old(cache).entries@[i].last_access,
                            committed_state(*self, *plan, i as usize, rr + 1),
                        ) by {
                            assert(!commits_slot(*self, *plan, rr as int, i as usize));
                            assert(committed_state(*self, *plan, i as usize, rr + 1)
                                == committed_state(*self, *plan, i as usize, rr as int));
                        }
                    }
                },
            }
            rr = rr + 1;
        }
        Ok(())
    }
}

/// The end-of-frame state of resource `rr` under the plan.
fn plan_last_state(plan: &CompiledPlan, rr: usize) -> (r: Option<AccessKind>)
    requires
        rr < plan.last_state@.len(),
    ensures
        r == plan.last_state@[rr as int],
{
    plan.last_state[rr]
}

/// The barriers of one resource's list that precede `pass`, in their
/// emitted order.
pub open spec fn filtered_barriers(bars: Seq<Barrier>, pass: usize) -> Seq<Barrier>
    decreases bars.len(),
{
    if bars.len() == 0 {
        Seq::empty()
    } else {
        let head = filtered_barriers(bars.drop_last(), pass);
        if bars.last().before_pass == pass {
            head.push(bars.last())
        } else {
            head
        }
    }
}

/// All barriers of the plan that precede `pass`: the resources in order,
/// each contributing its matching barriers in their emitted order.
pub open spec fn plan_barriers_before(bars: Seq<Vec<Barrier>>, pass: usize) -> Seq<Barrier>
    decreases bars.len(),
{
    if bars.len() == 0 {
        Seq::empty()
    } else {
        plan_barriers_before(bars.drop_last(), pass) + filtered_barriers(bars.last()@, pass)
    }
}

impl CompiledPlan {
    /// The barriers to issue immediately before pass `pass` runs (or, with
    /// `pass` equal to the number of passes, at the end of the frame):
    /// exactly the in-order concatenation, resource by resource, of the
    /// synthesized barriers whose `before_pass` is `pass`, and nothing
    /// else — `plan_barriers_before` pins content, multiplicity and order.
    pub fn barriers_before(&self, pass: usize) -> (out: Vec<Barrier>)
        ensures
            out@ == plan_barriers_before(self.barriers@, pass),
            forall|t: int|
                0 <= t < out@.len() ==> (#[trigger] out@[t]).before_pass == pass && exists|r: int, j: int|
                    0 <= r < self.barriers@.len() && 0 <= j < self.barriers@[r]@.len()
                        && #[trigger] self.barriers@[r]@[j] == out@[t],
            forall|r: int, j: int|
                0 <= r < self.barriers@.len() && 0 <= j < self.barriers@[r]@.len() && (
                #[trigger] self.barriers@[r]@[j]).before_pass == pass ==> out@.contains(
                    self.barriers@[r]@[j],
                ),
    {
        let nr = self.barriers.len();
        let mut out: Vec<Barrier> = Vec::new();
        let mut r: usize = 0;
        proof {
            assert(self.barriers@.take(0) =~= Seq::<Vec<Barrier>>::empty());
        }
        while r < nr
            invariant
                out@ == plan_barriers_before(self.barriers@.take(r as int), pass),
                r <= nr,
                nr == self.barriers@.len(),
                forall|t: int|
                    0 <= t < out@.len() ==> (#[trigger] out@[t]).before_pass == pass && exists|
                        r2: int,
                        j: int,
                    |
                        0 <= r2 < self.barriers@.len() && 0 <= j < self.barriers@[r2]@.len()
                            && #[trigger] self.barriers@[r2]@[j] == out@[t],
                forall|r2: int, j: int|
                    0 <= r2 < r && 0 <= j < self.barriers@[r2]@.len() && (
                    #[trigger] self.barriers@[r2]@[j]).before_pass == pass ==> out@.contains(
                        self.barriers@[r2]@[j],
                    ),
            decreases nr - r,
        {
            let m = self.barriers[r].len();
            let mut j: usize = 0;
            proof {
                assert(self.barriers@[r as int]@.take(0) =~= Seq::<Barrier>::empty());
                assert(plan_barriers_before(self.barriers@.take(r as int), pass)
                    + filtered_barriers(self.barriers@[r as int]@.take(0), pass) =~= out@);
            }
            while j < m
                invariant
                    out@ == plan_barriers_before(self.barriers@.take(r as int), pass)
                        + filtered_barriers(self.barriers@[r as int]@.take(j as int), pass),
                    j <= m,
                    r < nr,
                    nr == self.barriers@.len(),
                    m == self.barriers@[r as int]@.len(),
                    forall|t: int|
                        0 <= t < out@.len() ==> (#[trigger] out@[t]).before_pass == pass && exists|
                            r2: int,
                            j2: int,
                        |
                            0 <= r2 < self.barriers@.len() && 0 <= j2 < self.barriers@[r2]@.len()
                                && #[trigger] self.barriers@[r2]@[j2] == out@[t],
                    forall|r2: int, j2: int|
                        0 <= r2 < r && 0 <= j2 < self.barriers@[r2]@.len() && (
                        #[trigger] self.barriers@[r2]@[j2]).before_pass == pass ==> out@.contains(
                            self.barriers@[r2]@[j2],
                        ),
                    forall|j2: int|
                        0 <= j2 < j && (#[trigger] self.barriers@[r as int]@[j2]).before_pass
                            == pass ==> out@.contains(self.barriers@[r as int]@[j2]),
                decreases m - j,
            {
                let b = self.barriers[r][j];
                if b.before_pass == pass {
                    let ghost oldout = out@;
                    out.push(b);
                    proof {
                        assert(self.barriers@[r as int]@[j as int] == out@[oldout.len() as int]);
                        assert forall|r2: int, j2: int|
                            0 <= r2 < r + 1 && 0 <= j2 < self.barriers@[r2]@.len() && (
                            #[trigger] self.barriers@[r2]@[j2]).before_pass == pass
                            && !(r2 == r && j2 >= j) implies out@.contains(
                            self.barriers@[r2]@[j2],
                        ) by {
                            assert(oldout.contains(self.barriers@[r2]@[j2]));
                            let t = choose|t: int|
                                0 <= t < oldout.len() && oldout[t] == self.barriers@[r2]@[j2];
                            assert(out@[t] == self.barriers@[r2]@[j2]);
                        }
                    }
                }
                proof {
                    assert(self.barriers@[r as int]@.take(j as int + 1).drop_last()
                        =~= self.barriers@[r as int]@.take(j as int));
                    assert(self.barriers@[r as int]@.take(j as int + 1).last()
                        == self.barriers@[r as int]@[j as int]);
                    assert(out@ =~= plan_barriers_before(self.barriers@.take(r as int), pass)
                        + filtered_barriers(self.barriers@[r as int]@.take(j as int + 1), pass));
                }
                j = j + 1;
            }
            proof {
                assert(self.barriers@[r as int]@.take(m as int) =~= self.barriers@[r as int]@);
                assert(self.barriers@.take(r as int + 1).drop_last() =~= self.barriers@.take(
                    r as int,
                ));
                assert(self.barriers@.take(r as int + 1).last() == self.barriers@[r as int]);
                assert(out@ =~= plan_barriers_before(self.barriers@.take(r as int + 1), pass));
            }
            r = r + 1;
        }
        proof {
            assert(self.barriers@.take(nr as int) =~= self.barriers@);
        }
        out
    }
}

} // verus!
