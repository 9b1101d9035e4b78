//! The replacement engine: materialize the replacement pattern's goal text,
//! substitute every placeholder token with bound metavariable text or with a
//! script's string, and splice the result into the source buffer with offset
//! bookkeeping.

use vstd::prelude::*;

use crate::driver::Match;
use crate::env::{env_find, env_nodes_lt, Env};
use crate::luabridge::{bridge_prelude, lua_open, Bridge, ScriptOutcome};
use crate::pattern::{FindExpr, FindSpec, Pattern};
use crate::report::diag;
use crate::tree::SynTree;

verus! {

/// Replace every non-overlapping occurrence of `from` in `s` by `to`,
/// scanning left to right.
pub open spec fn spec_replace_all(s: Seq<u8>, from: Seq<u8>, to: Seq<u8>) -> Seq<u8>
    decreases s.len() when from.len() > 0
{
    if s.len() < from.len() {
        s
    } else if s.subrange(0, from.len() as int) == from {
        to + spec_replace_all(s.skip(from.len() as int), from, to)
    } else {
        seq![s[0]] + spec_replace_all(s.skip(1), from, to)
    }
}

/// Whether `s[i..i+from.len()]` equals `from`.
fn range_matches(s: &Vec<u8>, i: usize, from: &Vec<u8>) -> (r: bool)
    requires
        i + from@.len() <= s@.len(),
    ensures
        r <==> s@.subrange(i as int, i + from@.len()) == from@,
{
    let fl = from.len();
    let n = s.len();
    for k in 0..fl
        invariant
            i + fl <= n,
            n == s@.len(),
            fl == from@.len(),
            forall|q: int| 0 <= q < k ==> s@[i + q] == from@[q],
    {
        if s[i + k] != from[k] {
            proof {
                assert(s@.subrange(i as int, i + from@.len())[k as int] == s@[i + k]);
            }
            return false;
        }
    }
    proof {
        assert(s@.subrange(i as int, i + from@.len()) =~= from@);
    }
    true
}

/// Replace every occurrence of `from` by `to`, left to right.
pub fn replace_all_bytes(s: &Vec<u8>, from: &Vec<u8>, to: &Vec<u8>) -> (r: Vec<u8>)
    requires
        from@.len() > 0,
    ensures
        r@ == spec_replace_all(s@, from@, to@),
{
    let mut out: Vec<u8> = Vec::new();
    let mut i: usize = 0;
    let n = s.len();
    let fl = from.len();
    proof {
        assert(s@.skip(0) =~= s@);
        assert(Seq::<u8>::empty() + spec_replace_all(s@, from@, to@) =~= spec_replace_all(
            s@,
            from@,
            to@,
        ));
    }
    while i < n
        invariant
            n == s@.len(),
            fl == from@.len(),
            fl > 0,
            i <= n,
            spec_replace_all(s@, from@, to@) == out@ + spec_replace_all(
                s@.skip(i as int),
                from@,
                to@,
            ),
        decreases n - i,
    {
        let ghost rest = s@.skip(i as int);
        if n - i >= fl && range_matches(s, i, from) {
            crate::pattern::append_bytes(&mut out, to);
            proof {
                assert(rest.subrange(0, fl as int) =~= s@.subrange(i as int, i + fl));
                assert(rest.skip(fl as int) =~= s@.skip(i + fl));
                assert(spec_replace_all(rest, from@, to@) == to@ + spec_replace_all(
                    s@.skip(i + fl),
                    from@,
                    to@,
                ));
            }
            i = i + fl;
        } else {
            out.push(s[i]);
            proof {
                if rest.len() >= fl {
                    assert(rest.subrange(0, fl as int) =~= s@.subrange(i as int, i + fl));
                }
                assert(rest.skip(1) =~= s@.skip(i + 1));
                assert(rest[0] == s@[i as int]);
                assert(spec_replace_all(rest, from@, to@) == seq![s@[i as int]]
                    + spec_replace_all(s@.skip(i + 1), from@, to@));
            }
            i = i + 1;
        }
    }
    proof {
        assert(s@.skip(n as int) =~= Seq::<u8>::empty());
        assert(spec_replace_all(Seq::<u8>::empty(), from@, to@) == Seq::<u8>::empty());
        assert(out@ =~= out@ + Seq::<u8>::empty());
    }
    out
}

/// The skeleton after substituting the metavariable tokens of
/// `exprs[..idx]`, in descending index order.  Descending order matters:
/// tokens carry decimal numbers, so an early token is a prefix of a later
/// one (the first of eleven is a prefix of the eleventh); substituting the
/// later ones first leaves the earlier occurrences intact.
pub open spec fn spec_subst_down(
    skel: Seq<u8>,
    exprs: Seq<(Seq<u8>, FindSpec)>,
    envv: crate::env::EnvV,
    t: SynTree,
    idx: int,
) -> Seq<u8>
    decreases idx when 0 <= idx <= exprs.len()
{
    if idx <= 0 {
        skel
    } else {
        match exprs[idx - 1].1 {
            FindSpec::Meta(name) => {
                let rep = match env_find(envv, name) {
                    Some(i) => t.spec_node_text(envv[i].1[0] as int),
                    None => Seq::empty(),
                };
                spec_subst_down(
                    spec_replace_all(skel, exprs[idx - 1].0, rep),
                    exprs,
                    envv,
                    t,
                    idx - 1,
                )
            },
            _ => skel,
        }
    }
}

/// Every placeholder of the table is a metavariable bound to at least one
/// node, and every token is non-empty.
pub open spec fn subst_clean(exprs: Seq<(Seq<u8>, FindSpec)>, envv: crate::env::EnvV) -> bool {
    forall|i: int|
        0 <= i < exprs.len() ==> (#[trigger] exprs[i]).0.len() > 0 && (exprs[i].1 matches
        FindSpec::Meta(name) && env_find(envv, name) matches Some(q) && envv[q].1.len() > 0)
}

/// Replacing a range by its own contents is the identity.
pub proof fn lemma_splice_identity(t: Seq<u8>, s: int, e: int)
    requires
        0 <= s <= e <= t.len(),
    ensures
        t.subrange(0, s) + t.subrange(s, e) + t.subrange(e, t.len() as int) =~= t,
{
}

impl Pattern {
    /// Build the replacement text for one match: the goal text of this
    /// (replacement) pattern with every placeholder token substituted, in
    /// descending token order.  Anonymous and ellipsis placeholders, and
    /// unbound metavariables, yield the empty replacement with a diagnostic;
    /// a failing script chunk leaves its token in place.
    pub fn replacement(&self, m: &Match, tree: &SynTree) -> (r: Vec<u8>)
        requires
            self.wf(),
            tree.wf(),
            m.root < tree.len(),
            crate::env::env_wf(m.env@),
            env_nodes_lt(m.env@, tree.len()),
        ensures
            (exists|i: int|
                0 <= i < self.table().len() && ((#[trigger] self.table()[i]).1 is Ell
                    || self.table()[i].1 is Anon || (self.table()[i].1 matches FindSpec::Meta(
                    name,
                ) && env_find(m.env@, name) is None))) ==> r@ == Seq::<u8>::empty(),
            self.script_free() && subst_clean(self.table(), m.env@) ==> r@ == spec_subst_down(
                self.tree.spec_node_text(self.root_id as int),
                self.table(),
                m.env@,
                *tree,
                self.table().len() as int,
            ),
    {
        let mut skel = self.tree.node_text(self.root_id);
        let n = self.exprs.len();
        let mut i: usize = n;
        while i > 0
            invariant
                self.wf(),
                tree.wf(),
                m.root < tree.len(),
                crate::env::env_wf(m.env@),
                env_nodes_lt(m.env@, tree.len()),
                n == self.exprs.len(),
                i <= n,
                forall|q: int|
                    i <= q < n ==> !((#[trigger] self.table()[q]).1 is Ell) && !(self.table()[
                        q
                    ].1 is Anon) && !(self.table()[q].1 matches FindSpec::Meta(name) && env_find(
                        m.env@,
                        name,
                    ) is None),
                self.script_free() && subst_clean(self.table(), m.env@) ==> spec_subst_down(
                    skel@,
                    self.table(),
                    m.env@,
                    *tree,
                    i as int,
                ) == spec_subst_down(
                    self.tree.spec_node_text(self.root_id as int),
                    self.table(),
                    m.env@,
                    *tree,
                    n as int,
                ),
            decreases i,
        {
            i = i - 1;
            proof {
                assert(self.table()[i as int] == (
                    self.exprs@[i as int].0.0@,
                    crate::pattern::fe_view(self.exprs@[i as int].1),
                ));
            }
            match &self.exprs[i].1 {
                FindExpr::Anonymous => {
                    diag("an anonymous placeholder is not valid in replacements");
                    return Vec::new();
                },
                FindExpr::Ellipsis => {
                    diag("an ellipsis is not valid in replacements");
                    return Vec::new();
                },
                FindExpr::Metavar(mv) => {
                    match m.env.get(&mv.0) {
                        Some(nodes) => {
                            if nodes.len() > 0 {
                                let node = nodes[0];
                                proof {
                                    crate::env::lemma_env_find_bounds(m.env@, mv.0@);
                                }
                                let rep = tree.node_text(node);
                                if self.exprs[i].0.0.len() > 0 {
                                    skel = replace_all_bytes(&skel, &self.exprs[i].0.0, &rep);
                                }
                            }
                        },
                        None => {
                            diag("a metavariable in the replacement has no binding");
                            return Vec::new();
                        },
                    }
                },
                FindExpr::Lua(code) => {
                    let mut bridge = Bridge { sess: lua_open(bridge_prelude()), depth: 0 };
                    let mut binds = Env::new();
                    let oc = self.eval_chunk(
                        &mut bridge,
                        tree,
                        m.root,
                        &m.env,
                        &mut binds,
                        &code.0,
                        crate::driver::MATCH_FUEL,
                    );
                    match oc {
                        ScriptOutcome::Str(sv) => {
                            if self.exprs[i].0.0.len() > 0 {
                                skel = replace_all_bytes(&skel, &self.exprs[i].0.0, &sv);
                            }
                        },
                        _ => {
                            diag("a replacement chunk did not yield a string");
                        },
                    }
                },
            }
        }
        skel
    }

    /// Rewrite one match in place: replace the bytes of the match root's
    /// range, shifted by `offset`, with the computed replacement.  Hands
    /// back the shifted range that was replaced, or `None` when the shifted
    /// range does not lie inside the buffer.
    pub fn replace(&self, m: &Match, tree: &SynTree, text: &mut Vec<u8>, offset: i64) -> (r:
        Option<(usize, usize)>)
        requires
            self.wf(),
            tree.wf(),
            m.root < tree.len(),
            crate::env::env_wf(m.env@),
            env_nodes_lt(m.env@, tree.len()),
            old(text)@.len() < 0x4000_0000_0000_0000,
            -0x4000_0000_0000_0000 < offset < 0x4000_0000_0000_0000,
            tree.text@.len() < 0x4000_0000_0000_0000,
        ensures
            match r {
                Some(se) => {
                    &&& se.0 as int == tree.nodes@[m.root as int].start + offset
                    &&& se.1 as int == tree.nodes@[m.root as int].end + offset
                    &&& se.0 <= se.1 <= old(text)@.len()
                    &&& exists|rep: Seq<u8>|
                        final(text)@ == old(text)@.subrange(0, se.0 as int) + rep + old(
                            text,
                        )@.subrange(se.1 as int, old(text)@.len() as int)
                    &&& self.script_free() && subst_clean(self.table(), m.env@)
                        ==> final(text)@ == old(text)@.subrange(0, se.0 as int)
                        + spec_subst_down(
                        self.tree.spec_node_text(self.root_id as int),
                        self.table(),
                        m.env@,
                        *tree,
                        self.table().len() as int,
                    ) + old(text)@.subrange(se.1 as int, old(text)@.len() as int)
                },
                None => {
                    &&& final(text)@ == old(text)@
                    &&& !(0 <= tree.nodes@[m.root as int].start + offset
                        && tree.nodes@[m.root as int].end + offset <= old(text)@.len())
                },
            },
    {
        let s0 = tree.start_byte(m.root) as i64 + offset;
        let e0 = tree.end_byte(m.root) as i64 + offset;
        proof {
            assert(tree.nodes@[m.root as int].start <= tree.nodes@[m.root as int].end);
        }
        if s0 < 0 || e0 < 0 {
            return None;
        }
        if e0 > text.len() as i64 {
            return None;
        }
        let s = s0 as usize;
        let e = e0 as usize;
        let rep = self.replacement(m, tree);
        let mut rebuilt: Vec<u8> = crate::tree::copy_range(text, 0, s);
        crate::pattern::append_bytes(&mut rebuilt, &rep);
        let tail = crate::tree::copy_range(text, e, text.len());
        crate::pattern::append_bytes(&mut rebuilt, &tail);
        let ghost repv = rep@;
        *text = rebuilt;
        proof {
            assert(text@ == old(text)@.subrange(0, s as int) + repv + old(text)@.subrange(
                e as int,
                old(text)@.len() as int,
            ));
            assert(exists|rp: Seq<u8>|
                text@ == old(text)@.subrange(0, s as int) + rp + old(text)@.subrange(
                    e as int,
                    old(text)@.len() as int,
                )) by {
                assert(text@ == old(text)@.subrange(0, s as int) + repv + old(text)@.subrange(
                    e as int,
                    old(text)@.len() as int,
                ));
            }
        }
        Some((s, e))
    }
}

} // verus!
