//! The structural matcher: goal and candidate trees walked in lockstep,
//! metavariables unified, ellipses consuming sibling tails, kind mismatches
//! recovered by descending into the candidate.
//!
//! The matcher is specified by the `sm_*` functions below; for patterns
//! without script placeholders the executable matcher returns exactly what
//! they define.  All recursion is bounded by explicit fuel; exhausted fuel
//! means "no match".

use vstd::prelude::*;

use crate::env::{
    env_extend, env_find, env_includes, env_insert, env_nodes_lt, env_wf, lemma_env_extend_wf,
    lemma_env_find_bounds, lemma_env_insert_wf, lemma_extend_includes, lemma_includes_trans,
    lemma_insert_includes, copy_usizes, Env, EnvV, Metavar, clone_bytes,
};
use crate::tree::{in_chain, lemma_chain_trans};
use crate::luabridge::{Bridge, ScriptOutcome};
use crate::pattern::{fe_view, lemma_tv_find_bounds, FindExpr, FindSpec, Pattern};
use crate::tree::SynTree;

verus! {

/// View of an executable match result.
pub open spec fn mview(r: Option<(usize, Env)>) -> Option<(int, EnvV)> {
    match r {
        None => None,
        Some(m) => Some((m.0 as int, m.1@)),
    }
}

/// Match a goal node against a candidate node: dispatch on the goal's
/// trimmed text through the placeholder table.
pub open spec fn sm_node(
    pat: Pattern,
    gt: SynTree,
    g: int,
    ct: SynTree,
    c: int,
    env: EnvV,
    fuel: nat,
) -> Option<(int, EnvV)>
    decreases fuel,
{
    if fuel == 0 {
        None
    } else {
        match pat.lookup(gt.spec_trimmed(g)) {
            None => sm_plain(pat, gt, g, ct, c, env, (fuel - 1) as nat),
            Some(e) => sm_expr(pat, e, ct, c, env, (fuel - 1) as nat),
        }
    }
}

/// Plain structural matching: leaves by text, equal kinds by a sibling walk,
/// unequal kinds by descending into the candidate's children.
pub open spec fn sm_plain(
    pat: Pattern,
    gt: SynTree,
    g: int,
    ct: SynTree,
    c: int,
    env: EnvV,
    fuel: nat,
) -> Option<(int, EnvV)>
    decreases fuel,
{
    if fuel == 0 {
        None
    } else {
        let gn = gt.nodes@[g].children@.len();
        let cn = ct.nodes@[c].children@.len();
        if gn == 0 {
            if cn != 0 {
                None
            } else if gt.spec_trimmed(g) == ct.spec_trimmed(c) {
                Some((c, env))
            } else {
                None
            }
        } else if gt.nodes@[g].kind_id == ct.nodes@[c].kind_id {
            if cn == 0 {
                None
            } else {
                sm_walk(pat, gt, g, ct, c, 0, 0, env, (fuel - 1) as nat)
            }
        } else {
            sm_descend(pat, gt, g, ct, c, 0, env, (fuel - 1) as nat)
        }
    }
}

/// The sibling walk under goal `g` and candidate `c`, at goal child `k` and
/// candidate child `j`.  An ellipsis goal child accepts the rest; a failed
/// child match advances the candidate side only; a matched child with no
/// candidate sibling left advances the goal side only, so that a trailing
/// ellipsis can still consume nothing.
pub open spec fn sm_walk(
    pat: Pattern,
    gt: SynTree,
    g: int,
    ct: SynTree,
    c: int,
    k: int,
    j: int,
    env: EnvV,
    fuel: nat,
) -> Option<(int, EnvV)>
    decreases fuel,
{
    if fuel == 0 {
        None
    } else {
        let gc = gt.nodes@[g].children@;
        let cc = ct.nodes@[c].children@;
        if pat.lookup(gt.spec_trimmed(gc[k] as int)) == Some(FindSpec::Ell) {
            Some((c, env))
        } else {
            match sm_node(pat, gt, gc[k] as int, ct, cc[j] as int, env, (fuel - 1) as nat) {
                Some(m) => {
                    let env2 = env_extend(env, m.1);
                    if k + 1 < gc.len() && j + 1 < cc.len() {
                        sm_walk(pat, gt, g, ct, c, k + 1, j + 1, env2, (fuel - 1) as nat)
                    } else if k + 1 >= gc.len() {
                        Some((c, env2))
                    } else {
                        sm_walk(pat, gt, g, ct, c, k + 1, j, env2, (fuel - 1) as nat)
                    }
                },
                None => {
                    if j + 1 < cc.len() {
                        sm_walk(pat, gt, g, ct, c, k, j + 1, env, (fuel - 1) as nat)
                    } else {
                        None
                    }
                },
            }
        }
    }
}

/// On a kind mismatch, try the goal against each candidate child in order.
pub open spec fn sm_descend(
    pat: Pattern,
    gt: SynTree,
    g: int,
    ct: SynTree,
    c: int,
    idx: int,
    env: EnvV,
    fuel: nat,
) -> Option<(int, EnvV)>
    decreases fuel,
{
    if fuel == 0 {
        None
    } else {
        let cc = ct.nodes@[c].children@;
        if idx >= cc.len() {
            None
        } else {
            match sm_node(pat, gt, g, ct, cc[idx] as int, env, (fuel - 1) as nat) {
                Some(m) => Some(m),
                None => sm_descend(pat, gt, g, ct, c, idx + 1, env, (fuel - 1) as nat),
            }
        }
    }
}

/// Evaluate a placeholder against the candidate.  An ellipsis outside a
/// sibling walk matches nothing; a script placeholder is outside this
/// specification, which covers script-free patterns only.
pub open spec fn sm_expr(
    pat: Pattern,
    e: FindSpec,
    ct: SynTree,
    c: int,
    env: EnvV,
    fuel: nat,
) -> Option<(int, EnvV)>
    decreases fuel,
{
    if fuel == 0 {
        None
    } else {
        match e {
            FindSpec::Anon => Some((c, env)),
            FindSpec::Ell => None,
            FindSpec::Script(_) => None,
            FindSpec::Meta(name) => match env_find(env, name) {
                None => Some((c, env_insert(env, name, c as usize))),
                Some(i) => sm_recheck(pat, name, env[i].1, 0, ct, c, env, (fuel - 1) as nat),
            },
        }
    }
}

/// Nonlinear unification: every previously bound site must structurally
/// match the candidate; the candidate is then added to the binding set.
pub open spec fn sm_recheck(
    pat: Pattern,
    name: Seq<u8>,
    bs: Seq<usize>,
    q: int,
    ct: SynTree,
    c: int,
    acc: EnvV,
    fuel: nat,
) -> Option<(int, EnvV)>
    decreases fuel,
{
    if fuel == 0 {
        None
    } else if q >= bs.len() {
        Some((c, acc))
    } else {
        match sm_plain(pat, ct, bs[q] as int, ct, c, acc, (fuel - 1) as nat) {
            None => None,
            Some(m) => sm_recheck(
                pat,
                name,
                bs,
                q + 1,
                ct,
                c,
                env_insert(acc, name, c as usize),
                (fuel - 1) as nat,
            ),
        }
    }
}

impl Pattern {
    /// Match the goal node `g` of `gt` against candidate `c` of `ct`.
    pub(crate) fn m_node(
        &self,
        gt: &SynTree,
        g: usize,
        ct: &SynTree,
        c: usize,
        env: &Env,
        bridge: &mut Bridge,
        fuel: u64,
    ) -> (r: Option<(usize, Env)>)
        requires
            self.wf(),
            gt.wf(),
            ct.wf(),
            g < gt.len(),
            c < ct.len(),
            env_wf(env@),
            env_nodes_lt(env@, ct.len()),
        ensures
            r matches Some(m) ==> m.0 < ct.len() && env_wf(m.1@) && env_nodes_lt(m.1@, ct.len())
                && in_chain(*ct, c as int, m.0 as int) && env_includes(m.1@, env@),
            self.script_free() ==> mview(r) == sm_node(
                *self,
                *gt,
                g as int,
                *ct,
                c as int,
                env@,
                fuel as nat,
            ),
        decreases fuel, 1int,
    {
        if fuel == 0 {
            return None;
        }
        let gtxt = gt.trimmed_text(g);
        proof {
            assert(in_chain(*ct, c as int, c as int));
        }
        match self.find_expr(&gtxt) {
            None => self.m_plain(gt, g, ct, c, env, bridge, fuel - 1),
            Some(e) => {
                proof {
                    if self.script_free() {
                        lemma_tv_find_bounds(self.table(), gtxt@);
                        assert(!(fe_view(*e) is Script));
                    }
                }
                self.m_expr(e, ct, c, env, bridge, fuel - 1)
            },
        }
    }

    /// Plain structural matching of `g` against `c`.
    pub(crate) fn m_plain(
        &self,
        gt: &SynTree,
        g: usize,
        ct: &SynTree,
        c: usize,
        env: &Env,
        bridge: &mut Bridge,
        fuel: u64,
    ) -> (r: Option<(usize, Env)>)
        requires
            self.wf(),
            gt.wf(),
            ct.wf(),
            g < gt.len(),
            c < ct.len(),
            env_wf(env@),
            env_nodes_lt(env@, ct.len()),
        ensures
            r matches Some(m) ==> m.0 < ct.len() && env_wf(m.1@) && env_nodes_lt(m.1@, ct.len())
                && in_chain(*ct, c as int, m.0 as int) && env_includes(m.1@, env@),
            self.script_free() ==> mview(r) == sm_plain(
                *self,
                *gt,
                g as int,
                *ct,
                c as int,
                env@,
                fuel as nat,
            ),
        decreases fuel, 1int,
    {
        if fuel == 0 {
            return None;
        }
        let gn = gt.child_count(g);
        let cn = ct.child_count(c);
        if gn == 0 {
            if cn != 0 {
                return None;
            }
            let a = gt.trimmed_text(g);
            let b = ct.trimmed_text(c);
            if crate::env::bytes_eq(&a, &b) {
                proof {
                    assert(in_chain(*ct, c as int, c as int));
                }
                return Some((c, env.duplicate()));
            }
            return None;
        }
        proof {
            assert(in_chain(*ct, c as int, c as int));
        }
        if gt.kind_id(g) == ct.kind_id(c) {
            if cn == 0 {
                return None;
            }
            self.m_walk(gt, g, ct, c, 0, 0, env, bridge, fuel - 1)
        } else {
            self.m_descend(gt, g, ct, c, 0, env, bridge, fuel - 1)
        }
    }

    /// The sibling walk, mirroring `sm_walk`.
    pub(crate) fn m_walk(
        &self,
        gt: &SynTree,
        g: usize,
        ct: &SynTree,
        c: usize,
        k: usize,
        j: usize,
        env: &Env,
        bridge: &mut Bridge,
        fuel: u64,
    ) -> (r: Option<(usize, Env)>)
        requires
            self.wf(),
            gt.wf(),
            ct.wf(),
            g < gt.len(),
            c < ct.len(),
            k < gt.nodes@[g as int].children@.len(),
            j < ct.nodes@[c as int].children@.len(),
            env_wf(env@),
            env_nodes_lt(env@, ct.len()),
        ensures
            r matches Some(m) ==> m.0 < ct.len() && env_wf(m.1@) && env_nodes_lt(m.1@, ct.len())
                && m.0 == c && env_includes(m.1@, env@),
            self.script_free() ==> mview(r) == sm_walk(
                *self,
                *gt,
                g as int,
                *ct,
                c as int,
                k as int,
                j as int,
                env@,
                fuel as nat,
            ),
        decreases fuel, 1int,
    {
        if fuel == 0 {
            return None;
        }
        let gchild = match gt.child(g, k) {
            Some(x) => x,
            None => {
                return None;
            },
        };
        let cchild = match ct.child(c, j) {
            Some(x) => x,
            None => {
                return None;
            },
        };
        let gctxt = gt.trimmed_text(gchild);
        let is_ell = match self.find_expr(&gctxt) {
            Some(e) => matches!(e, FindExpr::Ellipsis),
            None => false,
        };
        if is_ell {
            return Some((c, env.duplicate()));
        }
        match self.m_node(gt, gchild, ct, cchild, env, bridge, fuel - 1) {
            Some(m) => {
                let mut env2 = env.duplicate();
                env2.extend(&m.1);
                proof {
                    lemma_env_extend_wf(env@, m.1@, ct.len());
                    lemma_extend_includes(env@, m.1@);
                }
                let glen = gt.child_count(g);
                let clen = ct.child_count(c);
                if k + 1 < glen && j + 1 < clen {
                    let r2 = self.m_walk(gt, g, ct, c, k + 1, j + 1, &env2, bridge, fuel - 1);
                    proof {
                        match &r2 {
                            Some(m2) => {
                                lemma_includes_trans(m2.1@, env2@, env@);
                            },
                            None => {},
                        }
                    }
                    r2
                } else if k + 1 >= glen {
                    Some((c, env2))
                } else {
                    let r2 = self.m_walk(gt, g, ct, c, k + 1, j, &env2, bridge, fuel - 1);
                    proof {
                        match &r2 {
                            Some(m2) => {
                                lemma_includes_trans(m2.1@, env2@, env@);
                            },
                            None => {},
                        }
                    }
                    r2
                }
            },
            None => {
                let clen = ct.child_count(c);
                if j + 1 < clen {
                    self.m_walk(gt, g, ct, c, k, j + 1, env, bridge, fuel - 1)
                } else {
                    None
                }
            },
        }
    }

    /// Kind-mismatch recovery, mirroring `sm_descend`.
    pub(crate) fn m_descend(
        &self,
        gt: &SynTree,
        g: usize,
        ct: &SynTree,
        c: usize,
        idx: usize,
        env: &Env,
        bridge: &mut Bridge,
        fuel: u64,
    ) -> (r: Option<(usize, Env)>)
        requires
            self.wf(),
            gt.wf(),
            ct.wf(),
            g < gt.len(),
            c < ct.len(),
            env_wf(env@),
            env_nodes_lt(env@, ct.len()),
        ensures
            r matches Some(m) ==> m.0 < ct.len() && env_wf(m.1@) && env_nodes_lt(m.1@, ct.len())
                && in_chain(*ct, c as int, m.0 as int) && env_includes(m.1@, env@),
            self.script_free() ==> mview(r) == sm_descend(
                *self,
                *gt,
                g as int,
                *ct,
                c as int,
                idx as int,
                env@,
                fuel as nat,
            ),
        decreases fuel, 1int,
    {
        if fuel == 0 {
            return None;
        }
        let clen = ct.child_count(c);
        if idx >= clen {
            return None;
        }
        let cchild = match ct.child(c, idx) {
            Some(x) => x,
            None => {
                return None;
            },
        };
        match self.m_node(gt, g, ct, cchild, env, bridge, fuel - 1) {
            Some(m) => {
                proof {
                    assert(ct.nodes@[cchild as int].parent == Some(c));
                    assert(in_chain(*ct, c as int, c as int));
                    assert(in_chain(*ct, c as int, cchild as int));
                    lemma_chain_trans(*ct, c as int, cchild as int, m.0 as int);
                }
                Some(m)
            },
            None => self.m_descend(gt, g, ct, c, idx + 1, env, bridge, fuel - 1),
        }
    }

    /// Evaluate one placeholder against the candidate, mirroring `sm_expr`.
    pub(crate) fn m_expr(
        &self,
        e: &FindExpr,
        ct: &SynTree,
        c: usize,
        env: &Env,
        bridge: &mut Bridge,
        fuel: u64,
    ) -> (r: Option<(usize, Env)>)
        requires
            self.wf(),
            ct.wf(),
            c < ct.len(),
            env_wf(env@),
            env_nodes_lt(env@, ct.len()),
        ensures
            r matches Some(m) ==> m.0 < ct.len() && env_wf(m.1@) && env_nodes_lt(m.1@, ct.len())
                && m.0 == c && env_includes(m.1@, env@),
            self.script_free() && !(fe_view(*e) is Script) ==> mview(r) == sm_expr(
                *self,
                fe_view(*e),
                *ct,
                c as int,
                env@,
                fuel as nat,
            ),
            fe_view(*e) is Ell ==> r is None,
            fe_view(*e) is Script ==> (r matches Some(m) ==> m.0 == c && (exists|b: EnvV|
                m.1@ == crate::env::env_extend(env@, b))),
        decreases fuel, 1int,
    {
        if fuel == 0 {
            return None;
        }
        match e {
            FindExpr::Anonymous => Some((c, env.duplicate())),
            FindExpr::Ellipsis => None,
            FindExpr::Lua(code) => {
                let mut binds = Env::new();
                let oc = self.eval_chunk(bridge, ct, c, env, &mut binds, &code.0, fuel - 1);
                match oc {
                    ScriptOutcome::Bool(true) => {
                        let mut env2 = env.duplicate();
                        env2.extend(&binds);
                        proof {
                            lemma_env_extend_wf(env@, binds@, ct.len());
                            lemma_extend_includes(env@, binds@);
                            assert(env2@ == crate::env::env_extend(env@, binds@));
                        }
                        Some((c, env2))
                    },
                    ScriptOutcome::Bool(false) => None,
                    ScriptOutcome::Str(_) => None,
                    ScriptOutcome::Nil => None,
                    ScriptOutcome::Fail => None,
                }
            },
            FindExpr::Metavar(m) => {
                match env.get(&m.0) {
                    None => {
                        let mut env2 = env.duplicate();
                        env2.insert(Metavar(clone_bytes(&m.0)), c);
                        proof {
                            lemma_env_insert_wf(env@, m.0@, c, ct.len());
                            lemma_insert_includes(env@, m.0@, c);
                        }
                        Some((c, env2))
                    },
                    Some(bs) => {
                        proof {
                            lemma_env_find_bounds(env@, m.0@);
                        }
                        let bsc = copy_usizes(bs);
                        let name = clone_bytes(&m.0);
                        self.m_recheck(&name, &bsc, 0, ct, c, env.duplicate(), bridge, fuel - 1)
                    },
                }
            },
        }
    }

    /// Re-match every previously bound site, mirroring `sm_recheck`.
    pub(crate) fn m_recheck(
        &self,
        name: &Vec<u8>,
        bs: &Vec<usize>,
        q: usize,
        ct: &SynTree,
        c: usize,
        acc: Env,
        bridge: &mut Bridge,
        fuel: u64,
    ) -> (r: Option<(usize, Env)>)
        requires
            self.wf(),
            ct.wf(),
            c < ct.len(),
            q <= bs@.len(),
            forall|x: int| 0 <= x < bs@.len() ==> (bs@[x] as int) < ct.len(),
            env_wf(acc@),
            env_nodes_lt(acc@, ct.len()),
        ensures
            r matches Some(m) ==> m.0 < ct.len() && env_wf(m.1@) && env_nodes_lt(m.1@, ct.len())
                && m.0 == c && env_includes(m.1@, acc@),
            self.script_free() ==> mview(r) == sm_recheck(
                *self,
                name@,
                bs@,
                q as int,
                *ct,
                c as int,
                acc@,
                fuel as nat,
            ),
        decreases fuel, 1int,
    {
        if fuel == 0 {
            return None;
        }
        if q >= bs.len() {
            return Some((c, acc));
        }
        let b = bs[q];
        match self.m_plain(ct, b, ct, c, &acc, bridge, fuel - 1) {
            None => None,
            Some(_m) => {
                let mut acc2 = acc;
                acc2.insert(Metavar(clone_bytes(name)), c);
                proof {
                    lemma_env_insert_wf(acc@, name@, c, ct.len());
                    lemma_insert_includes(acc@, name@, c);
                }
                let r2 = self.m_recheck(name, bs, q + 1, ct, c, acc2, bridge, fuel - 1);
                proof {
                    match &r2 {
                        Some(m2) => {
                            lemma_includes_trans(m2.1@, acc2@, acc@);
                        },
                        None => {},
                    }
                }
                r2
            },
        }
    }
}

/// The specified match's root lies in the candidate's subtree (and the
/// sibling walk, the placeholder evaluation and the nonlinear recheck keep
/// the candidate itself as root).
pub proof fn lemma_sm_node_root(
    pat: Pattern,
    gt: SynTree,
    g: int,
    ct: SynTree,
    c: int,
    env: EnvV,
    fuel: nat,
)
    requires
        ct.wf(),
        0 <= c < ct.len(),
    ensures
        sm_node(pat, gt, g, ct, c, env, fuel) matches Some(m) ==> 0 <= m.0 < ct.len()
            && in_chain(ct, c, m.0),
    decreases fuel, 1int,
{
    if fuel > 0 {
        assert(in_chain(ct, c, c));
        match pat.lookup(gt.spec_trimmed(g)) {
            None => {
                lemma_sm_plain_root(pat, gt, g, ct, c, env, (fuel - 1) as nat);
            },
            Some(e) => {
                lemma_sm_expr_root(pat, e, ct, c, env, (fuel - 1) as nat);
            },
        }
    }
}

/// As above, for plain structural matching.
pub proof fn lemma_sm_plain_root(
    pat: Pattern,
    gt: SynTree,
    g: int,
    ct: SynTree,
    c: int,
    env: EnvV,
    fuel: nat,
)
    requires
        ct.wf(),
        0 <= c < ct.len(),
    ensures
        sm_plain(pat, gt, g, ct, c, env, fuel) matches Some(m) ==> 0 <= m.0 < ct.len()
            && in_chain(ct, c, m.0),
    decreases fuel, 1int,
{
    if fuel > 0 {
        assert(in_chain(ct, c, c));
        lemma_sm_walk_root(pat, gt, g, ct, c, 0, 0, env, (fuel - 1) as nat);
        lemma_sm_descend_root(pat, gt, g, ct, c, 0, env, (fuel - 1) as nat);
    }
}

/// The sibling walk keeps its own candidate as root.
pub proof fn lemma_sm_walk_root(
    pat: Pattern,
    gt: SynTree,
    g: int,
    ct: SynTree,
    c: int,
    k: int,
    j: int,
    env: EnvV,
    fuel: nat,
)
    ensures
        sm_walk(pat, gt, g, ct, c, k, j, env, fuel) matches Some(m) ==> m.0 == c,
    decreases fuel, 1int,
{
    if fuel > 0 {
        let gc = gt.nodes@[g].children@;
        let cc = ct.nodes@[c].children@;
        if pat.lookup(gt.spec_trimmed(gc[k] as int)) == Some(FindSpec::Ell) {
        } else {
            match sm_node(pat, gt, gc[k] as int, ct, cc[j] as int, env, (fuel - 1) as nat) {
                Some(m) => {
                    let env2 = env_extend(env, m.1);
                    lemma_sm_walk_root(pat, gt, g, ct, c, k + 1, j + 1, env2, (fuel - 1) as nat);
                    lemma_sm_walk_root(pat, gt, g, ct, c, k + 1, j, env2, (fuel - 1) as nat);
                },
                None => {
                    lemma_sm_walk_root(pat, gt, g, ct, c, k, j + 1, env, (fuel - 1) as nat);
                },
            }
        }
    }
}

/// The kind-mismatch descent roots the match inside a candidate child.
pub proof fn lemma_sm_descend_root(
    pat: Pattern,
    gt: SynTree,
    g: int,
    ct: SynTree,
    c: int,
    idx: int,
    env: EnvV,
    fuel: nat,
)
    requires
        ct.wf(),
        0 <= c < ct.len(),
        0 <= idx,
    ensures
        sm_descend(pat, gt, g, ct, c, idx, env, fuel) matches Some(m) ==> 0 <= m.0 < ct.len()
            && in_chain(ct, c, m.0),
    decreases fuel, 1int,
{
    if fuel > 0 {
        let cc = ct.nodes@[c].children@;
        if idx >= cc.len() {
        } else {
            let cchild = cc[idx] as int;
            assert(c < cchild < ct.len());
            lemma_sm_node_root(pat, gt, g, ct, cchild, env, (fuel - 1) as nat);
            match sm_node(pat, gt, g, ct, cchild, env, (fuel - 1) as nat) {
                Some(m) => {
                    assert(ct.nodes@[cchild].parent == Some(c as usize));
                    assert(in_chain(ct, c, c));
                    assert(in_chain(ct, c, cchild));
                    lemma_chain_trans(ct, c, cchild, m.0);
                },
                None => {},
            }
            lemma_sm_descend_root(pat, gt, g, ct, c, idx + 1, env, (fuel - 1) as nat);
        }
    }
}

/// Placeholder evaluation keeps the candidate as root.
pub proof fn lemma_sm_expr_root(
    pat: Pattern,
    e: FindSpec,
    ct: SynTree,
    c: int,
    env: EnvV,
    fuel: nat,
)
    ensures
        sm_expr(pat, e, ct, c, env, fuel) matches Some(m) ==> m.0 == c,
    decreases fuel, 1int,
{
    if fuel > 0 {
        match e {
            FindSpec::Meta(name) => match env_find(env, name) {
                None => {},
                Some(i) => {
                    lemma_sm_recheck_root(pat, name, env[i].1, 0, ct, c, env, (fuel - 1) as nat);
                },
            },
            _ => {},
        }
    }
}

/// The nonlinear recheck keeps the candidate as root.
pub proof fn lemma_sm_recheck_root(
    pat: Pattern,
    name: Seq<u8>,
    bs: Seq<usize>,
    q: int,
    ct: SynTree,
    c: int,
    acc: EnvV,
    fuel: nat,
)
    ensures
        sm_recheck(pat, name, bs, q, ct, c, acc, fuel) matches Some(m) ==> m.0 == c,
    decreases fuel, 1int,
{
    if fuel > 0 && q < bs.len() {
        match sm_plain(pat, ct, bs[q] as int, ct, c, acc, (fuel - 1) as nat) {
            None => {},
            Some(m) => {
                lemma_sm_recheck_root(
                    pat,
                    name,
                    bs,
                    q + 1,
                    ct,
                    c,
                    env_insert(acc, name, c as usize),
                    (fuel - 1) as nat,
                );
            },
        }
    }
}

} // verus!
