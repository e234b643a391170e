//! The build-queue planner.
//!
//! The planner turns the dependency graph into a linear build order.  Base
//! images that no scanned file produces are treated as externally available
//! and seed the queue.  The remaining images are resolved by a bounded
//! fixed-point expansion: each round appends every image whose direct bases
//! are all queued already.  The round budget bounds non-termination on
//! cyclic or unresolvable input; images still unresolved when it runs out
//! are reported with their missing dependencies and stay out of the queue.

use crate::graph::{is_graph_key, distinct_keys, DepGraph};
use vstd::prelude::*;

verus! {

/// `name` is referenced as a base image by some entry.
pub open spec fn is_base_ref(g: Seq<(Seq<char>, Seq<Seq<char>>)>, name: Seq<char>) -> bool {
    exists|i: int, j: int|
        0 <= i < g.len() && 0 <= j < g[i].1.len() && #[trigger] g[i].1[j] == name
}

/// `name` is external: referenced as a base but produced by no scanned file.
pub open spec fn is_external(g: Seq<(Seq<char>, Seq<Seq<char>>)>, name: Seq<char>) -> bool {
    is_base_ref(g, name) && !is_graph_key(g, name)
}

/// No image name occurs twice.
pub open spec fn distinct_names(q: Seq<Seq<char>>) -> bool {
    forall|i: int, j: int| 0 <= i < j < q.len() ==> #[trigger] q[i] != #[trigger] q[j]
}

/// Every member of `deps` appears in `q` strictly before position `at`.
pub open spec fn all_before(q: Seq<Seq<char>>, deps: Seq<Seq<char>>, at: int) -> bool {
    forall|j: int| 0 <= j < deps.len() ==> q.take(at).contains(#[trigger] deps[j])
}

/// Every queued local image comes strictly after each of its direct bases:
/// the ordering guarantee of the build queue.
pub open spec fn deps_precede(g: Seq<(Seq<char>, Seq<Seq<char>>)>, q: Seq<Seq<char>>) -> bool {
    forall|i: int, k: int|
        #![trigger q[i], g[k]]
        0 <= i < q.len() && 0 <= k < g.len() && q[i] == g[k].0 ==> all_before(q, g[k].1, i)
}

/// External images form the seed prefix: no external follows a local one.
pub open spec fn externals_first(g: Seq<(Seq<char>, Seq<Seq<char>>)>, q: Seq<Seq<char>>) -> bool {
    forall|i: int, j: int|
        0 <= i < j < q.len() && is_graph_key(g, #[trigger] q[i]) ==> !is_external(
            g,
            #[trigger] q[j],
        )
}

/// The members of `deps` that do not appear in `q`, in order.
pub open spec fn absent_from(q: Seq<Seq<char>>, deps: Seq<Seq<char>>) -> Seq<Seq<char>>
    decreases deps.len(),
{
    if deps.len() == 0 {
        Seq::empty()
    } else {
        let rest = absent_from(q, deps.drop_last());
        if !q.contains(deps.last()) {
            rest.push(deps.last())
        } else {
            rest
        }
    }
}

/// `pd` holds the graph index `k`.
pub open spec fn pending_has(pd: Seq<usize>, k: int) -> bool {
    exists|t: int| 0 <= t < pd.len() && #[trigger] pd[t] == k
}

/// An unresolved report entry corresponds to a graph entry: same image, and
/// its missing list holds exactly the graph entry's bases absent from `q`.
pub open spec fn stuck_matches(
    g: Seq<(Seq<char>, Seq<Seq<char>>)>,
    q: Seq<Seq<char>>,
    entry: (Seq<char>, Seq<Seq<char>>),
) -> bool {
    exists|k: int|
        0 <= k < g.len() && entry.0 == (#[trigger] g[k]).0 && entry.1 == absent_from(q, g[k].1)
}

/// Some unresolved report entry carries `name`.
pub open spec fn reported_unresolved(u: Seq<(Seq<char>, Seq<Seq<char>>)>, name: Seq<char>) -> bool {
    exists|t: int| 0 <= t < u.len() && (#[trigger] u[t]).0 == name
}

/// A local image the planner could not resolve within the round budget,
/// with the direct bases that never appeared in the queue.
#[derive(Debug)]
pub struct StuckImage {
    pub image: Vec<char>,
    pub missing: Vec<Vec<char>>,
}

impl DeepView for StuckImage {
    type V = (Seq<char>, Seq<Seq<char>>);

    open spec fn deep_view(&self) -> Self::V {
        (self.image.deep_view(), self.missing.deep_view())
    }
}

/// The planner's outcome: the build order, and the images excluded from it
/// because the round budget ran out before their bases resolved.
#[derive(Debug)]
pub struct QueuePlan {
    pub queue: Vec<Vec<char>>,
    pub unresolved: Vec<StuckImage>,
}

/// Whether every member of `deps` already appears in `queue`.
fn all_deps_queued(queue: &Vec<Vec<char>>, deps: &Vec<Vec<char>>) -> (r: bool)
    ensures
        r == (forall|j: int|
            0 <= j < deps.deep_view().len() ==> queue.deep_view().contains(
                #[trigger] deps.deep_view()[j],
            )),
{
    let mut j: usize = 0;
    while j < deps.len()
        invariant
            j <= deps@.len(),
            forall|k: int|
                0 <= k < j ==> queue.deep_view().contains(#[trigger] deps.deep_view()[k]),
        decreases deps.len() - j,
    {
        proof {
            assert(deps@[j as int]@ =~= deps.deep_view()[j as int]);
        }
        if !crate::name_list_contains(queue, &deps[j]) {
            proof {
                assert(!queue.deep_view().contains(deps.deep_view()[j as int]));
            }
            return false;
        }
        j = j + 1;
    }
    proof {
        assert(deps.deep_view().len() == deps@.len());
    }
    true
}

/// The members of `deps` absent from `queue`, in declaration order.
fn collect_missing(queue: &Vec<Vec<char>>, deps: &Vec<Vec<char>>) -> (r: Vec<Vec<char>>)
    ensures
        r.deep_view() == absent_from(queue.deep_view(), deps.deep_view()),
{
    let ghost dv = deps.deep_view();
    let mut r: Vec<Vec<char>> = Vec::new();
    proof {
        assert(dv.take(0) =~= Seq::<Seq<char>>::empty());
        assert(r.deep_view() =~~= absent_from(queue.deep_view(), dv.take(0)));
    }
    let mut j: usize = 0;
    #[verifier::loop_isolation(false)]
    while j < deps.len()
        invariant
            j <= deps@.len(),
            r.deep_view() == absent_from(queue.deep_view(), dv.take(j as int)),
        decreases deps.len() - j,
    {
        let ghost prev = r.deep_view();
        proof {
            assert(dv.take(j + 1).drop_last() =~= dv.take(j as int));
            assert(dv.take(j + 1).last() == dv[j as int]);
            assert(deps@[j as int]@ =~= dv[j as int]);
        }
        if !crate::name_list_contains(queue, &deps[j]) {
            let ghost dj = dv[j as int];
            r.push(crate::clone_chars(&deps[j]));
            proof {
                assert(r.deep_view() =~~= prev.push(dj));
                assert(r.deep_view() =~~= absent_from(queue.deep_view(), dv.take(j + 1)));
            }
        } else {
            proof {
                assert(r.deep_view() =~~= absent_from(queue.deep_view(), dv.take(j + 1)));
            }
        }
        j = j + 1;
    }
    proof {
        assert(dv.take(dv.len() as int) =~= dv);
    }
    r
}

/// Appending a local image whose direct bases are all queued preserves the
/// ordering guarantee.
proof fn lemma_push_key_precede(
    g: Seq<(Seq<char>, Seq<Seq<char>>)>,
    prev: Seq<Seq<char>>,
    idx: int,
)
    requires
        distinct_keys(g),
        0 <= idx < g.len(),
        deps_precede(g, prev),
        all_before(prev, g[idx].1, prev.len() as int),
    ensures
        deps_precede(g, prev.push(g[idx].0)),
{
    let q2 = prev.push(g[idx].0);
    assert forall|i: int, k: int|
        #![trigger q2[i], g[k]]
        0 <= i < q2.len() && 0 <= k < g.len() && q2[i] == g[k].0 implies all_before(
        q2,
        g[k].1,
        i,
    ) by {
        if i < prev.len() {
            assert(q2[i] == prev[i]);
            assert(prev[i] == g[k].0);
            assert(all_before(prev, g[k].1, i));
            assert forall|j: int| 0 <= j < g[k].1.len() implies q2.take(i).contains(
                #[trigger] g[k].1[j],
            ) by {
                assert(prev.take(i).contains(g[k].1[j]));
                assert(q2.take(i) =~= prev.take(i));
            }
        } else {
            assert(q2[i] == g[idx].0);
            if k < idx {
                assert(g[k].0 != g[idx].0);
            } else if k > idx {
                assert(g[idx].0 != g[k].0);
            }
            assert(k == idx);
            assert forall|j: int| 0 <= j < g[k].1.len() implies q2.take(i).contains(
                #[trigger] g[k].1[j],
            ) by {
                assert(g[idx].1[j] == g[k].1[j]);
                assert(prev.take(prev.len() as int).contains(g[idx].1[j]));
                assert(q2.take(i) =~= prev.take(prev.len() as int));
            }
        }
    }
}

/// Resolves the dependency graph into a build order.
///
/// The queue starts with every distinct external base image, then grows by
/// rounds: a round appends each unqueued local image whose direct bases all
/// appear in the queue already.  After `round_budget` rounds the images
/// still pending are reported as unresolved, each with the bases the queue
/// never provided, and are left out of the queue together with whatever
/// depends on them.
///
/// The contract states the queue's guarantees for every input, cyclic or
/// not: no duplicates; only externals and local images appear; every
/// external appears (exactly once, by distinctness), and only in the seed
/// prefix before all local images; every queued local image comes strictly
/// after each of its direct bases; and the unresolved report lists exactly
/// the local images missing from the queue, with exactly their unqueued
/// bases.
pub fn plan_build_queue(graph: &DepGraph, round_budget: u8) -> (r: QueuePlan)
    requires
        distinct_keys(graph.entries.deep_view()),
    ensures
        ({
            let g = graph.entries.deep_view();
            let q = r.queue.deep_view();
            let u = r.unresolved.deep_view();
            &&& distinct_names(q)
            &&& forall|i: int|
                0 <= i < q.len() ==> is_external(g, #[trigger] q[i]) || is_graph_key(g, q[i])
            &&& forall|n: Seq<char>| #[trigger] is_external(g, n) ==> q.contains(n)
            &&& deps_precede(g, q)
            &&& externals_first(g, q)
            &&& forall|t: int|
                0 <= t < u.len() ==> stuck_matches(g, q, #[trigger] u[t]) && !q.contains(u[t].0)
            &&& forall|k: int|
                0 <= k < g.len() && !q.contains((#[trigger] g[k]).0) ==> reported_unresolved(
                    u,
                    g[k].0,
                )
        }),
{
    let ghost g = graph.entries.deep_view();
    let n = graph.entries.len();
    proof {
        assert(g.len() == n);
    }

    // Seed phase: every distinct base image that no scanned file produces.
    let mut queue: Vec<Vec<char>> = Vec::new();
    let mut a: usize = 0;
    #[verifier::loop_isolation(false)]
    while a < n
        invariant
            a <= n,
            distinct_names(queue.deep_view()),
            forall|m: int|
                0 <= m < queue.deep_view().len() ==> is_external(g, #[trigger] queue.deep_view()[m]),
            forall|x: int, y: int|
                #![trigger g[x].1[y]]
                0 <= x < a && 0 <= y < g[x].1.len() && !is_graph_key(g, g[x].1[y])
                    ==> queue.deep_view().contains(g[x].1[y]),
        decreases n - a,
    {
        let deps_len = graph.entries[a].deps.len();
        proof {
            assert(graph.entries@[a as int].deep_view() == g[a as int]);
            assert(g[a as int].1.len() == deps_len);
        }
        let mut b: usize = 0;
        #[verifier::loop_isolation(false)]
        while b < deps_len
            invariant
                b <= deps_len,
                distinct_names(queue.deep_view()),
                forall|m: int|
                    0 <= m < queue.deep_view().len() ==> is_external(
                        g,
                        #[trigger] queue.deep_view()[m],
                    ),
                forall|x: int, y: int|
                    #![trigger g[x].1[y]]
                    (0 <= x < a && 0 <= y < g[x].1.len() || x == a && 0 <= y < b)
                        && !is_graph_key(g, g[x].1[y]) ==> queue.deep_view().contains(g[x].1[y]),
            decreases deps_len - b,
        {
            let d = &graph.entries[a].deps[b];
            proof {
                assert(graph.entries@[a as int].deps@[b as int]@ =~= graph.entries@[
                    a as int
                ].deps.deep_view()[b as int]);
                assert(d@ == g[a as int].1[b as int]);
            }
            let is_key = crate::graph::entries_have_key(&graph.entries, d);
            if !is_key && !crate::name_list_contains(&queue, d) {
                let ghost prev = queue.deep_view();
                queue.push(crate::clone_chars(d));
                proof {
                    assert(queue.deep_view() =~~= prev.push(d@));
                    assert(is_base_ref(g, d@));
                    assert forall|m: int| 0 <= m < queue.deep_view().len() implies is_external(
                        g,
                        #[trigger] queue.deep_view()[m],
                    ) by {
                        if m < prev.len() {
                            assert(queue.deep_view()[m] == prev[m]);
                        }
                    }
                    assert forall|i: int, j: int|
                        0 <= i < j < queue.deep_view().len() implies #[trigger] queue.deep_view()[i]
                        != #[trigger] queue.deep_view()[j] by {
                        if j == prev.len() {
                            assert(!prev.contains(d@));
                            assert(queue.deep_view()[i] == prev[i]);
                        }
                    }
                    assert forall|x: int, y: int|
                        (0 <= x < a && 0 <= y < g[x].1.len() || x == a && 0 <= y < b + 1)
                            && !is_graph_key(g, #[trigger] g[x].1[y]) implies queue.deep_view()
                        .contains(g[x].1[y]) by {
                        if x == a && y == b {
                            assert(queue.deep_view()[prev.len() as int] == d@);
                        } else {
                            assert(prev.contains(g[x].1[y]));
                            let w = choose|m: int| 0 <= m < prev.len() && prev[m] == g[x].1[y];
                            assert(queue.deep_view()[w] == g[x].1[y]);
                        }
                    }
                }
            } else {
                proof {
                    assert forall|x: int, y: int|
                        (0 <= x < a && 0 <= y < g[x].1.len() || x == a && 0 <= y < b + 1)
                            && !is_graph_key(g, #[trigger] g[x].1[y]) implies queue.deep_view()
                        .contains(g[x].1[y]) by {
                        if x == a && y == b {
                            assert(queue.deep_view().contains(d@));
                        }
                    }
                }
            }
            b = b + 1;
        }
        a = a + 1;
    }

    // Everything external is now queued, and nothing local is.
    proof {
        assert forall|nm: Seq<char>| #[trigger] is_external(g, nm) implies queue.deep_view()
            .contains(nm) by {
            let (x, y) = choose|x: int, y: int|
                0 <= x < g.len() && 0 <= y < g[x].1.len() && #[trigger] g[x].1[y] == nm;
            assert(queue.deep_view().contains(g[x].1[y]));
        }
        assert(deps_precede(g, queue.deep_view())) by {
            assert forall|i: int, k: int|
                #![trigger queue.deep_view()[i], g[k]]
                0 <= i < queue.deep_view().len() && 0 <= k < g.len() && queue.deep_view()[i]
                    == g[k].0 implies all_before(queue.deep_view(), g[k].1, i) by {
                assert(is_external(g, queue.deep_view()[i]));
                assert(is_graph_key(g, g[k].0));
            }
        }
    }

    // Resolution rounds over the still-pending graph entries.
    let mut pending: Vec<usize> = Vec::new();
    let mut k0: usize = 0;
    #[verifier::loop_isolation(false)]
    while k0 < n
        invariant
            k0 <= n,
            pending@.len() == k0,
            forall|t: int| 0 <= t < k0 ==> #[trigger] pending@[t] == t,
        decreases n - k0,
    {
        pending.push(k0);
        k0 = k0 + 1;
    }
    proof {
        assert forall|k: int| 0 <= k < n implies pending_has(pending@, k) by {
            assert(pending@[k] == k);
        }
        assert forall|k: int| 0 <= k < n implies !queue.deep_view().contains(
            #[trigger] g[k].0,
        ) by {
            if queue.deep_view().contains(g[k].0) {
                let w = choose|m: int|
                    0 <= m < queue.deep_view().len() && #[trigger] queue.deep_view()[m] == g[k].0;
                assert(is_external(g, queue.deep_view()[w]));
                assert(is_graph_key(g, g[k].0));
            }
        }
    }

    let mut round: u8 = 0;
    #[verifier::loop_isolation(false)]
    while round < round_budget && pending.len() > 0
        invariant
            distinct_names(queue.deep_view()),
            forall|i: int|
                0 <= i < queue.deep_view().len() ==> is_external(
                    g,
                    #[trigger] queue.deep_view()[i],
                ) || is_graph_key(g, queue.deep_view()[i]),
            forall|nm: Seq<char>| #[trigger] is_external(g, nm) ==> queue.deep_view().contains(nm),
            deps_precede(g, queue.deep_view()),
            externals_first(g, queue.deep_view()),
            forall|t: int| 0 <= t < pending@.len() ==> #[trigger] pending@[t] < n,
            forall|s: int, t: int| 0 <= s < t < pending@.len() ==> pending@[s] < pending@[t],
            forall|k: int|
                0 <= k < n ==> (queue.deep_view().contains((#[trigger] g[k]).0) <==> !pending_has(
                    pending@,
                    k,
                )),
        decreases round_budget - round,
    {
        let cur = pending;
        let mut next_pending: Vec<usize> = Vec::new();
        let mut t: usize = 0;
        #[verifier::loop_isolation(false)]
        while t < cur.len()
            invariant
                t <= cur@.len(),
                distinct_names(queue.deep_view()),
                forall|i: int|
                    0 <= i < queue.deep_view().len() ==> is_external(
                        g,
                        #[trigger] queue.deep_view()[i],
                    ) || is_graph_key(g, queue.deep_view()[i]),
                forall|nm: Seq<char>| #[trigger] is_external(g, nm) ==> queue.deep_view().contains(
                    nm,
                ),
                deps_precede(g, queue.deep_view()),
                externals_first(g, queue.deep_view()),
                forall|s: int| 0 <= s < cur@.len() ==> #[trigger] cur@[s] < n,
                forall|s: int, s2: int| 0 <= s < s2 < cur@.len() ==> cur@[s] < cur@[s2],
                forall|s: int| 0 <= s < next_pending@.len() ==> #[trigger] next_pending@[s] < n,
                forall|s: int, s2: int|
                    0 <= s < s2 < next_pending@.len() ==> next_pending@[s] < next_pending@[s2],
                forall|s: int|
                    0 <= s < next_pending@.len() && t < cur@.len() ==> #[trigger] next_pending@[s]
                        < cur@[t as int],
                forall|k: int|
                    0 <= k < n ==> (queue.deep_view().contains((#[trigger] g[k]).0) <==> !(exists|
                        s: int,
                    |
                        t <= s < cur@.len() && #[trigger] cur@[s] == k) && !pending_has(
                        next_pending@,
                        k,
                    )),
            decreases cur.len() - t,
        {
            let idx = cur[t];
            proof {
                assert(graph.entries@[idx as int].deep_view() == g[idx as int]);
                assert(graph.entries@[idx as int].image@ =~= g[idx as int].0);
                assert(graph.entries@[idx as int].deps.deep_view() == g[idx as int].1);
            }
            let ready = all_deps_queued(&queue, &graph.entries[idx].deps);
            if ready {
                let ghost prev = queue.deep_view();
                let ghost img = g[idx as int].0;
                proof {
                    // `idx` sits in the unprocessed suffix, so its image is
                    // not yet queued.
                    assert(cur@[t as int] == idx);
                    assert(!prev.contains(img));
                }
                queue.push(crate::clone_chars(&graph.entries[idx].image));
                proof {
                    assert(queue.deep_view() =~~= prev.push(img));
                    let qd = queue.deep_view();
                    let ll = prev.len() as int;
                    assert forall|i: int, j: int| 0 <= i < j < qd.len() implies #[trigger] qd[i]
                        != #[trigger] qd[j] by {
                        if j == ll {
                            assert(qd[i] == prev[i]);
                        }
                    }
                    assert forall|i: int| 0 <= i < qd.len() implies is_external(
                        g,
                        #[trigger] qd[i],
                    ) || is_graph_key(g, qd[i]) by {
                        if i < ll {
                            assert(qd[i] == prev[i]);
                        } else {
                            assert(qd[i] == g[idx as int].0);
                        }
                    }
                    assert forall|nm: Seq<char>| #[trigger] is_external(g, nm) implies qd.contains(
                        nm,
                    ) by {
                        let w = choose|m: int| 0 <= m < prev.len() && #[trigger] prev[m] == nm;
                        assert(qd[w] == nm);
                    }
                    assert forall|j2: int| 0 <= j2 < g[idx as int].1.len() implies prev.take(
                        prev.len() as int,
                    ).contains(#[trigger] g[idx as int].1[j2]) by {
                        assert(prev.contains(graph.entries@[idx as int].deps.deep_view()[j2]));
                        assert(prev.contains(g[idx as int].1[j2]));
                        assert(prev.take(prev.len() as int) =~= prev);
                    }
                    assert(all_before(prev, g[idx as int].1, prev.len() as int));
                    lemma_push_key_precede(g, prev, idx as int);
                    assert(deps_precede(g, qd));
                    assert(externals_first(g, qd)) by {
                        assert forall|i: int, j: int|
                            0 <= i < j < qd.len() && is_graph_key(g, #[trigger] qd[i]) implies
                            !is_external(g, #[trigger] qd[j]) by {
                            if j < ll {
                                assert(qd[i] == prev[i] && qd[j] == prev[j]);
                            } else {
                                assert(qd[j] == g[idx as int].0);
                                assert(is_graph_key(g, qd[j]));
                            }
                        }
                    }
                    assert forall|k: int|
                        0 <= k < n implies (qd.contains((#[trigger] g[k]).0) <==> !(exists|s: int|
                        t + 1 <= s < cur@.len() && #[trigger] cur@[s] == k) && !pending_has(
                        next_pending@,
                        k,
                    )) by {
                        if k == idx {
                            assert(qd[ll] == g[k].0);
                            assert(qd.contains(g[k].0));
                            assert forall|s: int| t + 1 <= s < cur@.len() implies #[trigger] cur@[s]
                                != k by {
                                assert(cur@[t as int] < cur@[s]);
                            }
                            assert forall|s: int| 0 <= s < next_pending@.len() implies
                                #[trigger] next_pending@[s] != k by {
                                assert(next_pending@[s] < cur@[t as int]);
                            }
                        } else {
                            assert(g[k].0 != g[idx as int].0) by {
                                if k < idx {
                                    assert(g[k].0 != g[idx as int].0);
                                }
                            }
                            assert(qd.contains(g[k].0) <==> prev.contains(g[k].0)) by {
                                if prev.contains(g[k].0) {
                                    let w = choose|m: int|
                                        0 <= m < prev.len() && #[trigger] prev[m] == g[k].0;
                                    assert(qd[w] == g[k].0);
                                }
                                if qd.contains(g[k].0) {
                                    let w = choose|m: int|
                                        0 <= m < qd.len() && #[trigger] qd[m] == g[k].0;
                                    assert(w < ll);
                                    assert(prev[w] == g[k].0);
                                }
                            }
                            assert((exists|s: int|
                                t <= s < cur@.len() && #[trigger] cur@[s] == k) <==> (exists|s: int|
                                t + 1 <= s < cur@.len() && #[trigger] cur@[s] == k)) by {
                                if exists|s: int| t <= s < cur@.len() && #[trigger] cur@[s] == k {
                                    let s = choose|s: int|
                                        t <= s < cur@.len() && #[trigger] cur@[s] == k;
                                    assert(s != t);
                                }
                            }
                        }
                    }
                }
            } else {
                let ghost prev_np = next_pending@;
                next_pending.push(idx);
                proof {
                    assert(next_pending@ =~= prev_np.push(idx));
                    assert forall|s: int, s2: int|
                        0 <= s < s2 < next_pending@.len() implies next_pending@[s]
                        < next_pending@[s2] by {
                        if s2 == prev_np.len() {
                            assert(next_pending@[s] == prev_np[s]);
                            assert(prev_np[s] < cur@[t as int]);
                        }
                    }
                    assert forall|s: int|
                        0 <= s < next_pending@.len() && t + 1 < cur@.len() implies
                        #[trigger] next_pending@[s] < cur@[t + 1] by {
                        if s < prev_np.len() {
                            assert(prev_np[s] < cur@[t as int]);
                        }
                        assert(cur@[t as int] < cur@[t + 1]);
                    }
                    assert forall|k: int|
                        0 <= k < n implies (queue.deep_view().contains((#[trigger] g[k]).0) <==> !(
                        exists|s: int|
                            t + 1 <= s < cur@.len() && #[trigger] cur@[s] == k) && !pending_has(
                        next_pending@,
                        k,
                    )) by {
                        if k == idx {
                            assert(pending_has(next_pending@, k)) by {
                                assert(next_pending@[prev_np.len() as int] == idx);
                            }
                            assert(!queue.deep_view().contains(g[k].0)) by {
                                assert(cur@[t as int] == k);
                            }
                        } else {
                            assert(pending_has(next_pending@, k) <==> pending_has(prev_np, k)) by {
                                if pending_has(next_pending@, k) {
                                    let s = choose|s: int|
                                        0 <= s < next_pending@.len() && #[trigger] next_pending@[s]
                                            == k;
                                    assert(s != prev_np.len());
                                    assert(prev_np[s] == k);
                                }
                                if pending_has(prev_np, k) {
                                    let s = choose|s: int|
                                        0 <= s < prev_np.len() && #[trigger] prev_np[s] == k;
                                    assert(next_pending@[s] == k);
                                }
                            }
                            assert((exists|s: int|
                                t <= s < cur@.len() && #[trigger] cur@[s] == k) <==> (exists|s: int|
                                t + 1 <= s < cur@.len() && #[trigger] cur@[s] == k) || pending_has(
                                next_pending@,
                                k,
                            ) && !pending_has(prev_np, k)) by {
                                if exists|s: int| t <= s < cur@.len() && #[trigger] cur@[s] == k {
                                    let s = choose|s: int|
                                        t <= s < cur@.len() && #[trigger] cur@[s] == k;
                                    assert(s != t);
                                }
                            }
                        }
                    }
                }
            }
            t = t + 1;
        }
        pending = next_pending;
        round = round + 1;
    }

    // Report whatever is still pending, with its missing bases.
    let mut unresolved: Vec<StuckImage> = Vec::new();
    let mut t: usize = 0;
    #[verifier::loop_isolation(false)]
    while t < pending.len()
        invariant
            t <= pending@.len(),
            unresolved.deep_view().len() == t,
            forall|s: int|
                0 <= s < t ==> (#[trigger] unresolved.deep_view()[s]).0 == g[pending@[s] as int].0
                    && unresolved.deep_view()[s].1 == absent_from(
                    queue.deep_view(),
                    g[pending@[s] as int].1,
                ),
        decreases pending.len() - t,
    {
        let idx = pending[t];
        proof {
            assert(graph.entries@[idx as int].deep_view() == g[idx as int]);
            assert(graph.entries@[idx as int].image@ =~= g[idx as int].0);
            assert(graph.entries@[idx as int].deps.deep_view() == g[idx as int].1);
        }
        let ghost prev_u = unresolved.deep_view();
        let missing = collect_missing(&queue, &graph.entries[idx].deps);
        let stuck = StuckImage { image: crate::clone_chars(&graph.entries[idx].image), missing };
        proof {
            assert(stuck.deep_view().0 =~= g[idx as int].0);
            assert(stuck.deep_view().1 == absent_from(queue.deep_view(), g[idx as int].1));
        }
        unresolved.push(stuck);
        proof {
            assert forall|s: int| 0 <= s < t + 1 implies (#[trigger] unresolved.deep_view()[s]).0
                == g[pending@[s] as int].0 && unresolved.deep_view()[s].1 == absent_from(
                queue.deep_view(),
                g[pending@[s] as int].1,
            ) by {
                if s < t {
                    assert(unresolved.deep_view()[s] == prev_u[s]);
                }
            }
        }
        t = t + 1;
    }
    proof {
        let q = queue.deep_view();
        let u = unresolved.deep_view();
        assert forall|t2: int| 0 <= t2 < u.len() implies stuck_matches(g, q, #[trigger] u[t2])
            && !q.contains(u[t2].0) by {
            let k = pending@[t2] as int;
            assert(pending_has(pending@, k)) by {
                assert(pending@[t2] == k);
            }
            assert(u[t2].0 == g[k].0 && u[t2].1 == absent_from(q, g[k].1) && !q.contains(g[k].0));
            assert(stuck_matches(g, q, u[t2]));
        }
        assert forall|k: int| 0 <= k < g.len() && !q.contains((#[trigger] g[k]).0) implies
            reported_unresolved(u, g[k].0) by {
            assert(pending_has(pending@, k));
            let t2 = choose|t2: int| 0 <= t2 < pending@.len() && #[trigger] pending@[t2] == k;
            assert(u[t2].0 == g[k].0);
            assert(reported_unresolved(u, g[k].0));
        }
    }
    QueuePlan { queue, unresolved }
}

} // verus!
