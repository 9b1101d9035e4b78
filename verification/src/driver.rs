//! The match driver: breadth-first enumeration of candidates under a root,
//! deduplication by byte range, optional recursion into matched subtrees and
//! an optional match limit.

use vstd::prelude::*;
use vstd::seq_lib::*;
use vstd::set_lib::*;

use crate::env::{env_includes, env_nodes_lt, env_wf, Env, EnvV};
use crate::luabridge::{bridge_prelude, lua_open, Bridge, ScriptOutcome};
use crate::matcher::sm_node;
use crate::pattern::Pattern;
use crate::tree::{depth, in_chain, lemma_chain_le, lemma_chain_step, lemma_chain_trans, SynTree};

verus! {

/// A successful match: the candidate-side root node and the environment.
#[derive(Clone, Debug)]
pub struct Match {
    pub root: usize,
    pub env: Env,
}

/// A candidate subtree of an input tree.
pub struct Candidate<'a> {
    pub tree: &'a SynTree,
    pub node: usize,
}

/// Fuel for one top-level match attempt: far deeper than any real
/// pattern-tree walk.
pub const MATCH_FUEL: u64 = 1_000_000;

/// What one top-level match attempt yields, before post-filters.
pub open spec fn spec_match_at(pat: Pattern, t: SynTree, c: int, env: EnvV, fuel: nat) -> Option<
    (int, EnvV),
> {
    sm_node(pat, pat.tree, pat.root_id as int, t, c, env, fuel)
}

/// Every node strictly between `start` and `n` on the parent chain fails to
/// match; the chain from `n` reaches `start`.
pub open spec fn undominated(
    pat: Pattern,
    t: SynTree,
    start: int,
    n: int,
    env: EnvV,
    fuel: nat,
) -> bool
    decreases n when 0 <= n
{
    match t.nodes@[n].parent {
        None => false,
        Some(p) => {
            if !(0 <= p < n) {
                false
            } else if p == start {
                true
            } else {
                spec_match_at(pat, t, p as int, env, fuel) is None && undominated(
                    pat,
                    t,
                    start,
                    p as int,
                    env,
                    fuel,
                )
            }
        },
    }
}

/// Basic bookkeeping of the work queue: entries are distinct proper
/// descendants of `start`, and each entry's parent is `start` itself or an
/// entry already processed.
pub open spec fn queue_base_ok(t: SynTree, start: int, q: Seq<usize>, i: int) -> bool {
    &&& q.no_duplicates()
    &&& forall|x: int|
        0 <= x < q.len() ==> (#[trigger] q[x] as int) < t.len() && q[x] as int != start
            && in_chain(t, start, q[x] as int)
    &&& forall|x: int|
        0 <= x < q.len() ==> t.nodes@[#[trigger] q[x] as int].parent == Some(start as usize)
            || exists|y: int| 0 <= y < i && t.nodes@[q[x] as int].parent == Some(q[y])
}

/// Every queued entry is undominated (non-recursive mode).
pub open spec fn queue_undom_ok(
    pat: Pattern,
    t: SynTree,
    start: int,
    q: Seq<usize>,
    env: EnvV,
    fuel: nat,
) -> bool {
    forall|x: int|
        0 <= x < q.len() ==> undominated(pat, t, start, #[trigger] q[x] as int, env, fuel)
}

/// Every undominated node is processed already, or reachable from the
/// pending part of the queue.
pub open spec fn frontier_ok(
    pat: Pattern,
    t: SynTree,
    start: int,
    q: Seq<usize>,
    i: int,
    env: EnvV,
    fuel: nat,
) -> bool {
    forall|n: int|
        0 <= n < t.len() && n != start && undominated(pat, t, start, n, env, fuel) ==> exists|
            x: int,
        |
            #![auto]
            0 <= x < q.len() && (x < i ==> q[x] as int == n) && (x >= i ==> in_chain(
                t,
                q[x] as int,
                n,
            ))
}

/// Every processed entry that matches has its match-root range recorded.
pub open spec fn ranges_ok(
    pat: Pattern,
    t: SynTree,
    q: Seq<usize>,
    i: int,
    env: EnvV,
    fuel: nat,
    ranges: Seq<(usize, usize)>,
) -> bool {
    forall|x: int|
        0 <= x < i && spec_match_at(pat, t, #[trigger] q[x] as int, env, fuel) is Some
            ==> ranges.contains(
            t.spec_range(spec_match_at(pat, t, q[x] as int, env, fuel)->Some_0.0),
        )
}

/// The matches were emitted while walking candidates breadth first: some
/// assignment of candidates, one per match and each above its match root,
/// has non-decreasing depth.
pub open spec fn bfs_ordered(t: SynTree, start: int, out: Seq<Match>) -> bool {
    exists|cands: Seq<int>|
        #![auto]
        cands.len() == out.len() && (forall|a: int|
            0 <= a < out.len() ==> 0 <= #[trigger] cands[a] < t.len() && in_chain(
                t,
                start,
                cands[a],
            ) && in_chain(t, cands[a], out[a].root as int)) && (forall|a: int, b: int|
            0 <= a < b < out.len() ==> depth(t, #[trigger] cands[a]) <= depth(
                t,
                #[trigger] cands[b],
            ))
}

/// Every emitted match arises as the specified match of some undominated
/// candidate.
pub open spec fn sound_ok(
    pat: Pattern,
    t: SynTree,
    start: int,
    out: Seq<Match>,
    env: EnvV,
    fuel: nat,
) -> bool {
    forall|a: int|
        #![trigger out[a]]
        0 <= a < out.len() ==> exists|n: int|
            #![auto]
            0 <= n < t.len() && undominated(pat, t, start, n, env, fuel) && spec_match_at(
                pat,
                t,
                n,
                env,
                fuel,
            ) == Some((out[a].root as int, out[a].env@))
}

/// Every undominated matching candidate has the range of its match root
/// among the emitted matches.
pub open spec fn covered_ok(
    pat: Pattern,
    t: SynTree,
    start: int,
    out: Seq<Match>,
    env: EnvV,
    fuel: nat,
) -> bool {
    forall|n: int|
        #![trigger spec_match_at(pat, t, n, env, fuel)]
        0 <= n < t.len() && n != start && undominated(pat, t, start, n, env, fuel)
            && spec_match_at(pat, t, n, env, fuel) is Some ==> exists|a: int|
            #![auto]
            0 <= a < out.len() && t.spec_range(out[a].root as int) == t.spec_range(
                spec_match_at(pat, t, n, env, fuel)->Some_0.0,
            )
}

/// An undominated node hangs under `start`.
pub proof fn lemma_undominated_in_chain(
    pat: Pattern,
    t: SynTree,
    start: int,
    n: int,
    env: EnvV,
    fuel: nat,
)
    requires
        0 <= n,
        undominated(pat, t, start, n, env, fuel),
    ensures
        in_chain(t, start, n),
    decreases n,
{
    match t.nodes@[n].parent {
        None => {},
        Some(p) => {
            if 0 <= p < n {
                if p == start {
                    assert(in_chain(t, start, p as int));
                } else {
                    lemma_undominated_in_chain(pat, t, start, p as int, env, fuel);
                }
            }
        },
    }
}

/// Every strict intermediate ancestor of an undominated node fails to match
/// and is itself undominated.
pub proof fn lemma_undominated_anc(
    pat: Pattern,
    t: SynTree,
    start: int,
    n: int,
    a: int,
    env: EnvV,
    fuel: nat,
)
    requires
        0 <= start,
        0 <= n,
        0 <= a,
        undominated(pat, t, start, n, env, fuel),
        in_chain(t, a, n),
        in_chain(t, start, a),
        a != n,
        a != start,
    ensures
        spec_match_at(pat, t, a, env, fuel) is None,
        undominated(pat, t, start, a, env, fuel),
    decreases n,
{
    match t.nodes@[n].parent {
        None => {},
        Some(p) => {
            if 0 <= p < n {
                if a == p as int {
                    assert(p != start);
                } else {
                    if p == start {
                        lemma_chain_le(t, a, p as int);
                        lemma_chain_le(t, start, a);
                        assert(false);
                    } else {
                        lemma_undominated_anc(pat, t, start, p as int, a, env, fuel);
                    }
                }
            }
        },
    }
}

/// Introduce the breadth-first-order witness.
proof fn bfs_witness(t: SynTree, start: int, out: Seq<Match>, cands: Seq<int>)
    requires
        cands.len() == out.len(),
        forall|a: int|
            0 <= a < out.len() ==> 0 <= #[trigger] cands[a] < t.len() && in_chain(
                t,
                start,
                cands[a],
            ) && in_chain(t, cands[a], out[a].root as int),
        forall|a: int, b: int|
            0 <= a < b < out.len() ==> depth(t, #[trigger] cands[a]) <= depth(
                t,
                #[trigger] cands[b],
            ),
    ensures
        bfs_ordered(t, start, out),
{
}

/// A sequence of distinct indices below `bound` has at most `bound` entries.
proof fn lemma_distinct_bounded(s: Seq<usize>, bound: int)
    requires
        s.no_duplicates(),
        forall|x: int| 0 <= x < s.len() ==> (s[x] as int) < bound,
        bound >= 0,
    ensures
        s.len() <= bound,
{
    let si = s.map_values(|v: usize| v as int);
    assert(si.no_duplicates()) by {
        assert forall|x: int, y: int|
            0 <= x < si.len() && 0 <= y < si.len() && x != y implies si[x] != si[y] by {
            assert(s[x] != s[y]);
        }
    }
    si.unique_seq_to_set();
    lemma_int_range(0, bound);
    assert(si.to_set().subset_of(set_int_range(0, bound))) by {
        assert forall|e: int| si.to_set().contains(e) implies set_int_range(0, bound).contains(
            e,
        ) by {
            let x = choose|x: int| 0 <= x < si.len() && si[x] == e;
            assert(s[x] as int == e);
        }
    }
    lemma_len_subset(si.to_set(), set_int_range(0, bound));
}

/// One driver step keeps the queue bookkeeping: either the children of the
/// processed entry were appended, or nothing was.
proof fn lemma_step_base(t: SynTree, start: int, q_pre: Seq<usize>, q: Seq<usize>, i: int)
    requires
        t.wf(),
        0 <= start < t.len(),
        0 <= i < q_pre.len(),
        queue_base_ok(t, start, q_pre, i),
        q == q_pre || q == q_pre + t.nodes@[q_pre[i] as int].children@,
    ensures
        queue_base_ok(t, start, q, i + 1),
{
    let n = q_pre[i] as int;
    let kids = t.nodes@[n].children@;
    if q != q_pre {
        assert forall|x: int| q_pre.len() <= x < q.len() implies {
            &&& (#[trigger] q[x] as int) < t.len()
            &&& q[x] as int != start
            &&& in_chain(t, start, q[x] as int)
            &&& t.nodes@[q[x] as int].parent == Some(n as usize)
        } by {
            let c = q[x];
            assert(c == kids[x - q_pre.len()]);
            assert(in_chain(t, start, n));
            lemma_chain_le(t, start, n);
            assert(in_chain(t, start, c as int));
        }
        assert(q.no_duplicates()) by {
            assert forall|x: int, y: int|
                0 <= x < q.len() && 0 <= y < q.len() && x != y implies q[x] != q[y] by {
                if x >= q_pre.len() && y >= q_pre.len() {
                    assert(q[x] == kids[x - q_pre.len()]);
                    assert(q[y] == kids[y - q_pre.len()]);
                } else if x < q_pre.len() && y >= q_pre.len() {
                    if q[x] == q[y] {
                        assert(q[y] == kids[y - q_pre.len()]);
                        assert(t.nodes@[q_pre[x] as int].parent == Some(n as usize));
                        if t.nodes@[q_pre[x] as int].parent == Some(start as usize) {
                            assert(q_pre[i] as int != start);
                        } else {
                            let y2 = choose|y2: int|
                                0 <= y2 < i && t.nodes@[q_pre[x] as int].parent == Some(
                                    q_pre[y2],
                                );
                            assert(q_pre[y2] == q_pre[i]);
                        }
                    }
                } else if x >= q_pre.len() && y < q_pre.len() {
                    if q[x] == q[y] {
                        assert(q[x] == kids[x - q_pre.len()]);
                        assert(t.nodes@[q_pre[y] as int].parent == Some(n as usize));
                        if t.nodes@[q_pre[y] as int].parent == Some(start as usize) {
                            assert(q_pre[i] as int != start);
                        } else {
                            let y2 = choose|y2: int|
                                0 <= y2 < i && t.nodes@[q_pre[y] as int].parent == Some(
                                    q_pre[y2],
                                );
                            assert(q_pre[y2] == q_pre[i]);
                        }
                    }
                }
            }
        }
    }
    assert forall|x: int|
        0 <= x < q.len() implies t.nodes@[#[trigger] q[x] as int].parent == Some(start as usize)
        || exists|y: int| 0 <= y < i + 1 && t.nodes@[q[x] as int].parent == Some(q[y]) by {
        if x < q_pre.len() {
            assert(q[x] == q_pre[x]);
            if t.nodes@[q[x] as int].parent != Some(start as usize) {
                let y = choose|y: int|
                    0 <= y < i && t.nodes@[q_pre[x] as int].parent == Some(q_pre[y]);
                assert(q[y] == q_pre[y]);
                assert(0 <= y < i + 1 && t.nodes@[q[x] as int].parent == Some(q[y]));
            }
        } else {
            assert(q[x] == kids[x - q_pre.len()]);
            assert(t.nodes@[q[x] as int].parent == Some(n as usize));
            assert(q[i] == q_pre[i]);
            assert(0 <= i < i + 1 && t.nodes@[q[x] as int].parent == Some(q[i]));
        }
    }
}

/// In non-recursive mode the appended children are undominated, because
/// their parent failed to match.
proof fn lemma_step_undom(
    pat: Pattern,
    t: SynTree,
    start: int,
    q_pre: Seq<usize>,
    q: Seq<usize>,
    i: int,
    env: EnvV,
    fuel: nat,
)
    requires
        t.wf(),
        0 <= start < t.len(),
        0 <= i < q_pre.len(),
        queue_base_ok(t, start, q_pre, i),
        queue_undom_ok(pat, t, start, q_pre, env, fuel),
        q == q_pre || (q == q_pre + t.nodes@[q_pre[i] as int].children@ && spec_match_at(
            pat,
            t,
            q_pre[i] as int,
            env,
            fuel,
        ) is None),
    ensures
        queue_undom_ok(pat, t, start, q, env, fuel),
{
    let n = q_pre[i] as int;
    if q != q_pre {
        assert forall|x: int|
            0 <= x < q.len() implies undominated(
            pat,
            t,
            start,
            #[trigger] q[x] as int,
            env,
            fuel,
        ) by {
            if x >= q_pre.len() {
                let c = q[x] as int;
                assert(q[x] == t.nodes@[n].children@[x - q_pre.len()]);
                assert(t.nodes@[c].parent == Some(n as usize));
                assert(q_pre[i] as int != start);
                assert(undominated(pat, t, start, n, env, fuel));
            } else {
                assert(q[x] == q_pre[x]);
            }
        }
    }
}

/// The frontier invariant survives one driver step.
proof fn lemma_step_frontier(
    pat: Pattern,
    t: SynTree,
    start: int,
    q_pre: Seq<usize>,
    q: Seq<usize>,
    i: int,
    env: EnvV,
    fuel: nat,
)
    requires
        t.wf(),
        0 <= start < t.len(),
        0 <= i < q_pre.len(),
        queue_base_ok(t, start, q_pre, i),
        frontier_ok(pat, t, start, q_pre, i, env, fuel),
        q == q_pre + t.nodes@[q_pre[i] as int].children@ || (q == q_pre && spec_match_at(
            pat,
            t,
            q_pre[i] as int,
            env,
            fuel,
        ) is Some),
    ensures
        frontier_ok(pat, t, start, q, i + 1, env, fuel),
{
    let n = q_pre[i] as int;
    let kids = t.nodes@[n].children@;
    assert forall|nn: int|
        0 <= nn < t.len() && nn != start && undominated(pat, t, start, nn, env, fuel)
        implies exists|x: int|
        #![auto]
        0 <= x < q.len() && (x < i + 1 ==> q[x] as int == nn) && (x >= i + 1 ==> in_chain(
            t,
            q[x] as int,
            nn,
        )) by {
        let x0 = choose|x: int|
            #![auto]
            0 <= x < q_pre.len() && (x < i ==> q_pre[x] as int == nn) && (x >= i ==> in_chain(
                t,
                q_pre[x] as int,
                nn,
            ));
        if x0 != i {
            assert(q[x0] == q_pre[x0]);
            assert(0 <= x0 < q.len() && (x0 < i + 1 ==> q[x0] as int == nn) && (x0 >= i + 1
                ==> in_chain(t, q[x0] as int, nn)));
        } else {
            if nn == n {
                assert(q[i] == q_pre[i]);
                assert(0 <= i < q.len() && (i < i + 1 ==> q[i] as int == nn) && (i >= i + 1
                    ==> in_chain(t, q[i] as int, nn)));
            } else {
                assert(in_chain(t, n, nn));
                lemma_undominated_in_chain(pat, t, start, nn, env, fuel);
                lemma_undominated_anc(pat, t, start, nn, n, env, fuel);
                assert(spec_match_at(pat, t, n, env, fuel) is None);
                assert(q == q_pre + kids);
                lemma_chain_step(t, n, nn);
                let k = choose|k: int| 0 <= k < kids.len() && in_chain(t, kids[k] as int, nn);
                let xk = q_pre.len() as int + k;
                assert(q[xk] == kids[k]);
                assert(0 <= xk < q.len() && (xk < i + 1 ==> q[xk] as int == nn) && (xk >= i + 1
                    ==> in_chain(t, q[xk] as int, nn)));
            }
        }
    }
}

/// The processed-range invariant survives one driver step.
proof fn lemma_step_ranges(
    pat: Pattern,
    t: SynTree,
    q_pre: Seq<usize>,
    q: Seq<usize>,
    i: int,
    env: EnvV,
    fuel: nat,
    ranges_pre: Seq<(usize, usize)>,
    ranges: Seq<(usize, usize)>,
)
    requires
        0 <= i < q_pre.len(),
        q == q_pre || q == q_pre + t.nodes@[q_pre[i] as int].children@,
        ranges_ok(pat, t, q_pre, i, env, fuel, ranges_pre),
        ranges == ranges_pre || (ranges.len() == ranges_pre.len() + 1 && ranges
            == ranges_pre.push(ranges.last())),
        spec_match_at(pat, t, q_pre[i] as int, env, fuel) is Some ==> ranges.contains(
            t.spec_range(spec_match_at(pat, t, q_pre[i] as int, env, fuel)->Some_0.0),
        ),
    ensures
        ranges_ok(pat, t, q, i + 1, env, fuel, ranges),
{
    assert forall|x: int|
        0 <= x < i + 1 && spec_match_at(pat, t, #[trigger] q[x] as int, env, fuel) is Some
        implies ranges.contains(
        t.spec_range(spec_match_at(pat, t, q[x] as int, env, fuel)->Some_0.0),
    ) by {
        assert(q[x] == q_pre[x]);
        if x < i {
            let rng = t.spec_range(spec_match_at(pat, t, q_pre[x] as int, env, fuel)->Some_0.0);
            assert(ranges_pre.contains(rng));
            let a = choose|a: int| 0 <= a < ranges_pre.len() && ranges_pre[a] == rng;
            assert(ranges[a] == rng);
        }
    }
}

/// At start the queue holds exactly the children of `start`, which are
/// distinct, undominated, and cover the chain of every undominated node.
proof fn lemma_driver_init(
    pat: Pattern,
    t: SynTree,
    start: int,
    q: Seq<usize>,
    env: EnvV,
    fuel: nat,
)
    requires
        t.wf(),
        0 <= start < t.len(),
        q == t.nodes@[start].children@,
    ensures
        queue_base_ok(t, start, q, 0),
        queue_undom_ok(pat, t, start, q, env, fuel),
        frontier_ok(pat, t, start, q, 0, env, fuel),
        ranges_ok(pat, t, q, 0, env, fuel, Seq::empty()),
{
    assert forall|x: int| 0 <= x < q.len() implies {
        &&& (#[trigger] q[x] as int) < t.len()
        &&& q[x] as int != start
        &&& in_chain(t, start, q[x] as int)
        &&& t.nodes@[q[x] as int].parent == Some(start as usize)
        &&& undominated(pat, t, start, q[x] as int, env, fuel)
    } by {
        assert(q[x] == t.nodes@[start].children@[x]);
        assert(in_chain(t, start, start));
    }
    assert(q.no_duplicates()) by {
        assert forall|x: int, y: int|
            0 <= x < q.len() && 0 <= y < q.len() && x != y implies q[x] != q[y] by {
            assert(q[x] == t.nodes@[start].children@[x]);
            assert(q[y] == t.nodes@[start].children@[y]);
        }
    }
    assert forall|n: int|
        0 <= n < t.len() && n != start && undominated(pat, t, start, n, env, fuel)
        implies exists|x: int|
        #![auto]
        0 <= x < q.len() && (x < 0 ==> q[x] as int == n) && (x >= 0 ==> in_chain(
            t,
            q[x] as int,
            n,
        )) by {
        lemma_undominated_in_chain(pat, t, start, n, env, fuel);
        lemma_chain_step(t, start, n);
        let k = choose|k: int|
            0 <= k < t.nodes@[start].children@.len() && in_chain(
                t,
                t.nodes@[start].children@[k] as int,
                n,
            );
        assert(q[k] == t.nodes@[start].children@[k]);
        assert(0 <= k < q.len() && (k < 0 ==> q[k] as int == n) && (k >= 0 ==> in_chain(
            t,
            q[k] as int,
            n,
        )));
    }
}

/// Whether a byte range was already emitted.
fn range_present(ranges: &Vec<(usize, usize)>, rng: (usize, usize)) -> (r: bool)
    ensures
        r <==> ranges@.contains(rng),
{
    let n = ranges.len();
    for i in 0..n
        invariant
            n == ranges.len(),
            forall|q: int| 0 <= q < i ==> ranges@[q] != rng,
    {
        if ranges[i].0 == rng.0 && ranges[i].1 == rng.1 {
            proof {
                assert(ranges@[i as int] == rng);
            }
            return true;
        }
    }
    false
}

impl Pattern {
    /// One top-level match attempt against candidate `c`, with the pattern's
    /// post-filters applied.
    pub fn match_node(&self, env: Env, candidate: Candidate) -> (r: Option<Match>)
        requires
            self.wf(),
            candidate.tree.wf(),
            candidate.node < candidate.tree.len(),
            env_wf(env@),
            env_nodes_lt(env@, candidate.tree.len()),
        ensures
            r matches Some(m) ==> m.root < candidate.tree.len() && env_wf(m.env@)
                && env_nodes_lt(m.env@, candidate.tree.len()) && in_chain(
                *candidate.tree,
                candidate.node as int,
                m.root as int,
            ) && env_includes(m.env@, env@),
            self.script_free() ==> (r matches Some(m) ==> spec_match_at(
                *self,
                *candidate.tree,
                candidate.node as int,
                env@,
                MATCH_FUEL as nat,
            ) == Some((m.root as int, m.env@))),
            self.script_free() && self.wheres@.len() == 0 ==> match r {
                Some(m) => spec_match_at(
                    *self,
                    *candidate.tree,
                    candidate.node as int,
                    env@,
                    MATCH_FUEL as nat,
                ) == Some((m.root as int, m.env@)),
                None => spec_match_at(
                    *self,
                    *candidate.tree,
                    candidate.node as int,
                    env@,
                    MATCH_FUEL as nat,
                ) is None,
            },
    {
        self.match_node_fueled(candidate.tree, candidate.node, &env, MATCH_FUEL)
    }

    /// One top-level match attempt with explicit fuel.
    pub(crate) fn match_node_fueled(&self, t: &SynTree, c: usize, env: &Env, fuel: u64) -> (r:
        Option<Match>)
        requires
            self.wf(),
            t.wf(),
            c < t.len(),
            env_wf(env@),
            env_nodes_lt(env@, t.len()),
        ensures
            r matches Some(m) ==> m.root < t.len() && env_wf(m.env@) && env_nodes_lt(
                m.env@,
                t.len(),
            ) && in_chain(*t, c as int, m.root as int) && env_includes(m.env@, env@),
            self.script_free() ==> (r matches Some(m) ==> spec_match_at(
                *self,
                *t,
                c as int,
                env@,
                fuel as nat,
            ) == Some((m.root as int, m.env@))),
            self.script_free() && self.wheres@.len() == 0 ==> match r {
                Some(m) => spec_match_at(*self, *t, c as int, env@, fuel as nat) == Some(
                    (m.root as int, m.env@),
                ),
                None => spec_match_at(*self, *t, c as int, env@, fuel as nat) is None,
            },
        decreases fuel, 4int,
    {
        let mut bridge = Bridge {
            sess: if self.needs_lua() {
                lua_open(bridge_prelude())
            } else {
                None
            },
            depth: 0,
        };
        let m = match self.m_node(&self.tree, self.root_id, t, c, env, &mut bridge, fuel) {
            None => {
                return None;
            },
            Some(m) => m,
        };
        let nw = self.wheres.len();
        let mut wi: usize = 0;
        while wi < nw
            invariant
                self.wf(),
                t.wf(),
                c < t.len(),
                nw == self.wheres@.len(),
                env_wf(m.1@),
                env_nodes_lt(m.1@, t.len()),
            decreases nw - wi,
        {
            let mut binds = Env::new();
            let oc = self.eval_chunk(
                &mut bridge,
                t,
                c,
                &m.1,
                &mut binds,
                &self.wheres[wi].0,
                fuel,
            );
            match oc {
                ScriptOutcome::Bool(true) => {},
                ScriptOutcome::Bool(false) => {
                    return None;
                },
                _ => {
                    crate::report::diag("post-filter chunk did not yield a boolean");
                    return None;
                },
            }
            wi = wi + 1;
        }
        Some(Match { root: m.0, env: m.1 })
    }

    /// All matches under the root of `tree`, in breadth-first order,
    /// deduplicated by byte range.
    pub fn matches(&self, tree: &SynTree, env: &Env, recursive: bool, limit: Option<usize>) -> (r:
        Vec<Match>)
        requires
            self.wf(),
            tree.wf(),
            env_wf(env@),
            env_nodes_lt(env@, tree.len()),
        ensures
            forall|a: int|
                0 <= a < r@.len() ==> (#[trigger] r@[a]).root < tree.len() && env_wf(r@[a].env@)
                    && env_nodes_lt(r@[a].env@, tree.len()) && in_chain(
                    *tree,
                    0,
                    r@[a].root as int,
                ) && r@[a].root as int != 0 && env_includes(r@[a].env@, env@),
            forall|a: int, b: int|
                0 <= a < b < r@.len() ==> tree.spec_range((#[trigger] r@[a]).root as int)
                    != tree.spec_range((#[trigger] r@[b]).root as int),
            limit matches Some(l) ==> r@.len() <= (if l == 0 {
                1int
            } else {
                l as int
            }),
            bfs_ordered(*tree, 0, r@),
            self.script_free() && self.wheres@.len() == 0 && !recursive ==> sound_ok(
                *self,
                *tree,
                0,
                r@,
                env@,
                MATCH_FUEL as nat,
            ),
            self.script_free() && self.wheres@.len() == 0 && limit is None ==> covered_ok(
                *self,
                *tree,
                0,
                r@,
                env@,
                MATCH_FUEL as nat,
            ),
    {
        self.matches_from(tree, 0, env, recursive, limit, MATCH_FUEL)
    }

    /// All matches under `start`, breadth first.
    #[verifier::rlimit(100)]
    pub(crate) fn matches_from(
        &self,
        tree: &SynTree,
        start: usize,
        env: &Env,
        recursive: bool,
        limit: Option<usize>,
        fuel: u64,
    ) -> (r: Vec<Match>)
        requires
            self.wf(),
            tree.wf(),
            start < tree.len(),
            env_wf(env@),
            env_nodes_lt(env@, tree.len()),
        ensures
            forall|a: int|
                0 <= a < r@.len() ==> (#[trigger] r@[a]).root < tree.len() && env_wf(r@[a].env@)
                    && env_nodes_lt(r@[a].env@, tree.len()) && in_chain(
                    *tree,
                    start as int,
                    r@[a].root as int,
                ) && r@[a].root as int != start && env_includes(r@[a].env@, env@),
            forall|a: int, b: int|
                0 <= a < b < r@.len() ==> tree.spec_range((#[trigger] r@[a]).root as int)
                    != tree.spec_range((#[trigger] r@[b]).root as int),
            limit matches Some(l) ==> r@.len() <= (if l == 0 {
                1int
            } else {
                l as int
            }),
            bfs_ordered(*tree, start as int, r@),
            self.script_free() && self.wheres@.len() == 0 && !recursive ==> sound_ok(
                *self,
                *tree,
                start as int,
                r@,
                env@,
                fuel as nat,
            ),
            self.script_free() && self.wheres@.len() == 0 && limit is None ==> covered_ok(
                *self,
                *tree,
                start as int,
                r@,
                env@,
                fuel as nat,
            ),
        decreases fuel, 5int,
    {
        let ghost clean = self.script_free() && self.wheres@.len() == 0;
        let mut queue: Vec<usize> = Vec::new();
        let n0 = tree.child_count(start);
        for k in 0..n0
            invariant
                tree.wf(),
                start < tree.len(),
                n0 == tree.nodes@[start as int].children@.len(),
                queue@.len() == k,
                forall|x: int| 0 <= x < k ==> queue@[x] == tree.nodes@[start as int].children@[x],
        {
            let c = match tree.child(start, k) {
                Some(c) => c,
                None => {
                    return Vec::new();
                },
            };
            queue.push(c);
        }
        let mut out: Vec<Match> = Vec::new();
        let mut ranges: Vec<(usize, usize)> = Vec::new();
        let mut i: usize = 0;
        let ghost mut cands: Seq<int> = Seq::empty();
        proof {
            assert(queue@ =~= tree.nodes@[start as int].children@);
            lemma_driver_init(*self, *tree, start as int, queue@, env@, fuel as nat);
            assert forall|x: int, y: int|
                0 <= x < y < queue@.len() implies depth(*tree, #[trigger] queue@[x] as int)
                <= depth(*tree, #[trigger] queue@[y] as int) by {
                assert(tree.nodes@[queue@[x] as int].parent == Some(start));
                assert(tree.nodes@[queue@[y] as int].parent == Some(start));
            }
            assert forall|x: int|
                0 <= x < queue@.len() implies depth(*tree, #[trigger] queue@[x] as int)
                <= depth(*tree, queue@[0] as int) + 1 by {
                assert(tree.nodes@[queue@[x] as int].parent == Some(start));
                assert(tree.nodes@[queue@[0] as int].parent == Some(start));
            }
        }
        while i < queue.len()
            invariant
                self.wf(),
                tree.wf(),
                start < tree.len(),
                env_wf(env@),
                env_nodes_lt(env@, tree.len()),
                i <= queue@.len(),
                clean == (self.script_free() && self.wheres@.len() == 0),
                queue_base_ok(*tree, start as int, queue@, i as int),
                forall|a: int|
                    0 <= a < out@.len() ==> (#[trigger] out@[a]).root < tree.len() && env_wf(
                        out@[a].env@,
                    ) && env_nodes_lt(out@[a].env@, tree.len()) && in_chain(
                        *tree,
                        start as int,
                        out@[a].root as int,
                    ) && out@[a].root as int != start && env_includes(out@[a].env@, env@),
                limit matches Some(l) ==> out@.len() < (if l == 0 {
                    1int
                } else {
                    l as int
                }),
                ranges@.len() == out@.len(),
                forall|a: int|
                    0 <= a < out@.len() ==> ranges@[a] == tree.spec_range(
                        (#[trigger] out@[a]).root as int,
                    ),
                forall|a: int, b: int| 0 <= a < b < ranges@.len() ==> ranges@[a] != ranges@[b],
                clean && !recursive ==> queue_undom_ok(
                    *self,
                    *tree,
                    start as int,
                    queue@,
                    env@,
                    fuel as nat,
                ),
                clean && !recursive ==> sound_ok(
                    *self,
                    *tree,
                    start as int,
                    out@,
                    env@,
                    fuel as nat,
                ),
                clean && limit is None ==> frontier_ok(
                    *self,
                    *tree,
                    start as int,
                    queue@,
                    i as int,
                    env@,
                    fuel as nat,
                ),
                clean && limit is None ==> ranges_ok(
                    *self,
                    *tree,
                    queue@,
                    i as int,
                    env@,
                    fuel as nat,
                    ranges@,
                ),
                forall|x: int, y: int|
                    0 <= x < y < queue@.len() ==> depth(*tree, #[trigger] queue@[x] as int)
                        <= depth(*tree, #[trigger] queue@[y] as int),
                i < queue@.len() ==> forall|x: int|
                    i <= x < queue@.len() ==> depth(*tree, #[trigger] queue@[x] as int) <= depth(
                        *tree,
                        queue@[i as int] as int,
                    ) + 1,
                cands.len() == out@.len(),
                forall|a: int|
                    0 <= a < out@.len() ==> 0 <= #[trigger] cands[a] < tree.len() && in_chain(
                        *tree,
                        start as int,
                        cands[a],
                    ) && in_chain(*tree, cands[a], out@[a].root as int),
                forall|a: int, b: int|
                    0 <= a < b < out@.len() ==> depth(*tree, #[trigger] cands[a]) <= depth(
                        *tree,
                        #[trigger] cands[b],
                    ),
                cands.len() > 0 && i < queue@.len() ==> depth(*tree, cands.last()) <= depth(
                    *tree,
                    queue@[i as int] as int,
                ),
            decreases tree.len() - i,
        {
            proof {
                lemma_distinct_bounded(queue@, tree.len());
            }
            let n = queue[i];
            let m_opt = self.match_node_fueled(tree, n, env, fuel);
            let ghost queue_pre = queue@;
            let ghost ranges_pre = ranges@;
            let ghost out_pre = out@;
            let ghost matched = spec_match_at(*self, *tree, n as int, env@, fuel as nat);
            let mut descend = true;
            match &m_opt {
                Some(m) => {
                    let rng = (tree.start_byte(m.root), tree.end_byte(m.root));
                    if range_present(&ranges, rng) {
                        descend = false;
                    } else {
                        ranges.push(rng);
                        let mr = m.root;
                        let menv = m.env.duplicate();
                        let ghost menvv = menv@;
                        proof {
                            assert(in_chain(*tree, start as int, n as int));
                            lemma_chain_trans(*tree, start as int, n as int, mr as int);
                            lemma_chain_le(*tree, start as int, n as int);
                            lemma_chain_le(*tree, n as int, mr as int);
                        }
                        out.push(Match { root: mr, env: menv });
                        proof {
                            let ghost cands_pre = cands;
                            cands = cands.push(n as int);
                            assert(cands.last() == n as int);
                            assert forall|a: int, b: int|
                                0 <= a < b < out@.len() implies depth(
                                *tree,
                                #[trigger] cands[a],
                            ) <= depth(*tree, #[trigger] cands[b]) by {
                                if b < cands_pre.len() {
                                    assert(cands[a] == cands_pre[a]);
                                    assert(cands[b] == cands_pre[b]);
                                } else {
                                    assert(cands[b] == n as int);
                                    if a < cands_pre.len() {
                                        assert(cands[a] == cands_pre[a]);
                                        if a < cands_pre.len() - 1 {
                                            assert(depth(*tree, cands_pre[a]) <= depth(
                                                *tree,
                                                cands_pre[cands_pre.len() - 1],
                                            ));
                                        }
                                        assert(cands_pre.last() == cands_pre[cands_pre.len()
                                            - 1]);
                                        assert(depth(*tree, cands_pre.last()) <= depth(
                                            *tree,
                                            queue@[i as int] as int,
                                        ));
                                    }
                                }
                            }
                        }
                        proof {
                            if clean && !recursive {
                                assert(undominated(
                                    *self,
                                    *tree,
                                    start as int,
                                    n as int,
                                    env@,
                                    fuel as nat,
                                ));
                                assert(matched == Some((mr as int, menvv)));
                                assert(sound_ok(
                                    *self,
                                    *tree,
                                    start as int,
                                    out@,
                                    env@,
                                    fuel as nat,
                                )) by {
                                    assert forall|a: int|
                                        #![trigger out@[a]]
                                        0 <= a < out@.len() implies exists|nn: int|
                                        #![auto]
                                        0 <= nn < tree.len() && undominated(
                                            *self,
                                            *tree,
                                            start as int,
                                            nn,
                                            env@,
                                            fuel as nat,
                                        ) && spec_match_at(*self, *tree, nn, env@, fuel as nat)
                                        == Some((out@[a].root as int, out@[a].env@)) by {
                                        if a < out_pre.len() {
                                            assert(out@[a] == out_pre[a]);
                                            assert(sound_ok(
                                                *self,
                                                *tree,
                                                start as int,
                                                out_pre,
                                                env@,
                                                fuel as nat,
                                            ));
                                        } else {
                                            assert(out@[a].root == mr && out@[a].env@ == menvv);
                                            assert(0 <= (n as int) < tree.len() && undominated(
                                                *self,
                                                *tree,
                                                start as int,
                                                n as int,
                                                env@,
                                                fuel as nat,
                                            ) && spec_match_at(
                                                *self,
                                                *tree,
                                                n as int,
                                                env@,
                                                fuel as nat,
                                            ) == Some((out@[a].root as int, out@[a].env@)));
                                        }
                                    }
                                }
                            }
                        }
                        match limit {
                            Some(l) => {
                                if out.len() >= l {
                                    proof {
                                        bfs_witness(*tree, start as int, out@, cands);
                                    }
                                    return out;
                                }
                            },
                            None => {},
                        }
                        if !recursive {
                            descend = false;
                        }
                    }
                },
                None => {},
            }
            if descend {
                let cn = tree.child_count(n);
                let mut k: usize = 0;
                while k < cn
                    invariant
                        tree.wf(),
                        i < queue_pre.len(),
                        queue_pre[i as int] == n,
                        n < tree.len(),
                        cn == tree.nodes@[n as int].children@.len(),
                        k <= cn,
                        queue@ == queue_pre + tree.nodes@[n as int].children@.take(k as int),
                    decreases cn - k,
                {
                    let c = match tree.child(n, k) {
                        Some(c) => c,
                        None => {
                            return out;
                        },
                    };
                    queue.push(c);
                    proof {
                        assert(queue@ =~= queue_pre + tree.nodes@[n as int].children@.take(k + 1));
                    }
                    k = k + 1;
                }
                proof {
                    assert(tree.nodes@[n as int].children@.take(cn as int) =~= tree.nodes@[
                        n as int
                    ].children@);
                    assert(queue@ =~= queue_pre + tree.nodes@[n as int].children@);
                }
            }
            proof {
                let t = *tree;
                let pat = *self;
                let st = start as int;
                let fl = fuel as nat;
                if !descend {
                    assert(queue@ =~= queue_pre);
                }
                lemma_step_base(t, st, queue_pre, queue@, i as int);
                // Breadth-first bookkeeping: appended children sit one level
                // below the entry just processed, so queue depths stay
                // non-decreasing and within one level of the head.
                assert forall|x: int|
                    queue_pre.len() <= x < queue@.len() implies depth(
                    t,
                    #[trigger] queue@[x] as int,
                ) == depth(t, n as int) + 1 by {
                    assert(t.nodes@[queue@[x] as int].parent == Some(n));
                }
                assert forall|x: int, y: int|
                    0 <= x < y < queue@.len() implies depth(t, #[trigger] queue@[x] as int)
                    <= depth(t, #[trigger] queue@[y] as int) by {
                    if y >= queue_pre.len() {
                        if x < queue_pre.len() {
                            assert(queue@[x] == queue_pre[x]);
                            if x >= i as int {
                                assert(depth(t, queue_pre[x] as int) <= depth(t, n as int) + 1);
                            } else {
                                assert(depth(t, queue_pre[x] as int) <= depth(t, n as int));
                            }
                        }
                    } else {
                        assert(queue@[x] == queue_pre[x]);
                        assert(queue@[y] == queue_pre[y]);
                    }
                }
                if cands.len() > 0 && i + 1 < queue@.len() {
                    assert(depth(t, cands.last()) <= depth(t, queue@[i + 1] as int)) by {
                        assert(queue@[i as int] == queue_pre[i as int]);
                        assert(depth(t, queue@[i as int] as int) <= depth(
                            t,
                            queue@[i + 1] as int,
                        ));
                    }
                }
                if clean && !recursive {
                    if descend {
                        assert(m_opt is None);
                        assert(matched is None);
                    }
                    lemma_step_undom(pat, t, st, queue_pre, queue@, i as int, env@, fl);
                }
                if clean && limit is None {
                    if !descend {
                        assert(m_opt is Some);
                        assert(matched is Some);
                    } else {
                        assert(queue@ == queue_pre + t.nodes@[n as int].children@);
                    }
                    lemma_step_frontier(pat, t, st, queue_pre, queue@, i as int, env@, fl);
                    if matched is Some {
                        assert(ranges@.contains(t.spec_range(matched->Some_0.0))) by {
                            if ranges@.len() > ranges_pre.len() {
                                assert(ranges@[ranges_pre.len() as int] == t.spec_range(
                                    matched->Some_0.0,
                                ));
                            } else {
                                let rng = t.spec_range(matched->Some_0.0);
                                assert(ranges_pre.contains(rng));
                            }
                        }
                    }
                    if ranges@.len() > ranges_pre.len() {
                        assert(ranges@ =~= ranges_pre.push(ranges@.last()));
                    } else {
                        assert(ranges@ =~= ranges_pre);
                    }
                    lemma_step_ranges(
                        pat,
                        t,
                        queue_pre,
                        queue@,
                        i as int,
                        env@,
                        fl,
                        ranges_pre,
                        ranges@,
                    );
                }
            }
            i = i + 1;
        }
        proof {
            bfs_witness(*tree, start as int, out@, cands);
            if clean && limit is None {
                assert forall|n: int|
                    #![trigger spec_match_at(*self, *tree, n, env@, fuel as nat)]
                    0 <= n < tree.len() && n != start && undominated(
                        *self,
                        *tree,
                        start as int,
                        n,
                        env@,
                        fuel as nat,
                    ) && spec_match_at(*self, *tree, n, env@, fuel as nat) is Some
                    implies exists|a: int|
                    #![auto]
                    0 <= a < out@.len() && tree.spec_range(out@[a].root as int) == tree.spec_range(
                        spec_match_at(*self, *tree, n, env@, fuel as nat)->Some_0.0,
                    ) by {
                    let rng = tree.spec_range(
                        spec_match_at(*self, *tree, n, env@, fuel as nat)->Some_0.0,
                    );
                    let x = choose|x: int|
                        #![auto]
                        0 <= x < queue@.len() && (x < i ==> queue@[x] as int == n) && (x >= i
                            ==> in_chain(*tree, queue@[x] as int, n));
                    assert(queue@[x] as int == n);
                    assert(ranges@.contains(rng));
                    let a = choose|a: int| 0 <= a < ranges@.len() && ranges@[a] == rng;
                    assert(ranges@[a] == tree.spec_range(out@[a].root as int));
                }
            }
        }
        out
    }
}

} // verus!
