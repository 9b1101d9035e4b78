//! The stated laws of the engine, proved against the specifications that the
//! public functions' contracts use.

use vstd::prelude::*;

use crate::driver::{
    covered_ok, lemma_undominated_anc, lemma_undominated_in_chain, sound_ok, spec_match_at,
    undominated, Match,
};
use crate::env::EnvV;
use crate::matcher::{lemma_sm_node_root, sm_plain, sm_recheck, sm_walk};
use crate::tree::{in_chain, lemma_chain_range, lemma_incomparable_disjoint};
use crate::pattern::{
    after_dollar, after_dollar_s1, after_dollar_s2, lex_from, spec_lex, tmp_token, FindSpec,
    Pattern,
};
use crate::tree::SynTree;

verus! {

/// `needle` occurs somewhere in `hay`.
pub open spec fn is_sub(hay: Seq<u8>, needle: Seq<u8>) -> bool {
    exists|k: int|
        0 <= k && k + needle.len() <= hay.len() && #[trigger] hay.subrange(
            k,
            k + needle.len(),
        ) == needle
}

/// An occurrence survives appending.
proof fn lemma_sub_append(hay: Seq<u8>, more: Seq<u8>, needle: Seq<u8>)
    requires
        is_sub(hay, needle),
    ensures
        is_sub(hay + more, needle),
{
    let k = choose|k: int|
        0 <= k && k + needle.len() <= hay.len() && #[trigger] hay.subrange(
            k,
            k + needle.len(),
        ) == needle;
    assert((hay + more).subrange(k, k + needle.len()) =~= hay.subrange(k, k + needle.len()));
}

/// Appending puts the appended text in.
proof fn lemma_sub_at_end(hay: Seq<u8>, needle: Seq<u8>)
    ensures
        is_sub(hay + needle, needle),
{
    assert((hay + needle).subrange(
        hay.len() as int,
        (hay.len() + needle.len()) as int,
    ) =~= needle);
}

/// The lexer state is token-tidy: the table keys are consecutive tokens
/// ending at the running counter, and each occurs in the text built so far.
pub open spec fn lex_tidy(
    text: Seq<u8>,
    exprs: Seq<(Seq<u8>, FindSpec)>,
    vars: nat,
) -> bool {
    &&& vars >= exprs.len()
    &&& forall|j: int|
        0 <= j < exprs.len() ==> (#[trigger] exprs[j]).0 == tmp_token(
            (vars - exprs.len() + j) as nat,
        )
    &&& forall|j: int| 0 <= j < exprs.len() ==> is_sub(text, (#[trigger] exprs[j]).0)
}

/// One emission keeps the state tidy.
proof fn lemma_tidy_emit(text: Seq<u8>, exprs: Seq<(Seq<u8>, FindSpec)>, vars: nat, e: FindSpec)
    requires
        lex_tidy(text, exprs, vars),
    ensures
        lex_tidy(text + tmp_token(vars), exprs.push((tmp_token(vars), e)), vars + 1),
{
    let text2 = text + tmp_token(vars);
    let exprs2 = exprs.push((tmp_token(vars), e));
    assert forall|j: int|
        0 <= j < exprs2.len() implies (#[trigger] exprs2[j]).0 == tmp_token(
        (vars + 1 - exprs2.len() + j) as nat,
    ) by {
        if j < exprs.len() {
            assert(exprs2[j] == exprs[j]);
        }
    }
    assert forall|j: int|
        0 <= j < exprs2.len() implies is_sub(text2, (#[trigger] exprs2[j]).0) by {
        if j < exprs.len() {
            assert(exprs2[j] == exprs[j]);
            lemma_sub_append(text, tmp_token(vars), exprs[j].0);
        } else {
            lemma_sub_at_end(text, tmp_token(vars));
        }
    }
}

/// Appending plain text keeps the state tidy.
proof fn lemma_tidy_text(text: Seq<u8>, more: Seq<u8>, exprs: Seq<(Seq<u8>, FindSpec)>, vars: nat)
    requires
        lex_tidy(text, exprs, vars),
    ensures
        lex_tidy(text + more, exprs, vars),
{
    assert forall|j: int|
        0 <= j < exprs.len() implies is_sub(text + more, (#[trigger] exprs[j]).0) by {
        lemma_sub_append(text, more, exprs[j].0);
    }
}

/// The placeholder checks after a `$` keep the state tidy.
proof fn lemma_tidy_dollar(
    pat: Seq<u8>,
    j: int,
    text: Seq<u8>,
    exprs: Seq<(Seq<u8>, FindSpec)>,
    vars: nat,
)
    requires
        lex_tidy(text, exprs, vars),
    ensures
        ({
            let st = after_dollar(pat, j, text, exprs, vars);
            &&& lex_tidy(st.1, st.2, st.3)
            &&& st.3 - st.2.len() == vars - exprs.len()
            &&& st.2.len() >= exprs.len()
        }),
{
    let s1 = after_dollar_s1(pat, j, text, exprs, vars);
    if j < pat.len() && pat[j] == 95 {
        lemma_tidy_emit(text, exprs, vars, FindSpec::Anon);
    }
    assert(lex_tidy(s1.1, s1.2, s1.3));
    let s2 = after_dollar_s2(pat, j, text, exprs, vars);
    if s1.0 < pat.len() && pat[s1.0] == 46 && s1.0 + 1 < pat.len() && pat[s1.0 + 1] == 46 {
        lemma_tidy_emit(s1.1, s1.2, s1.3, FindSpec::Ell);
    }
    assert(lex_tidy(s2.1, s2.2, s2.3));
    let run = crate::pattern::alpha_run(pat, s2.0);
    if run > 0 {
        lemma_tidy_emit(s2.1, s2.2, s2.3, FindSpec::Meta(pat.subrange(s2.0, s2.0 + run)));
    }
}

/// The lexer keeps the state tidy from any position to the end.
proof fn lemma_lex_from_tidy(
    pat: Seq<u8>,
    i: int,
    nest: int,
    code: Seq<u8>,
    text: Seq<u8>,
    exprs: Seq<(Seq<u8>, FindSpec)>,
    vars: nat,
)
    requires
        0 <= i <= pat.len(),
        lex_tidy(text, exprs, vars),
    ensures
        ({
            let r = lex_from(pat, i, nest, code, text, exprs, vars);
            &&& lex_tidy(r.0, r.1, r.2)
            &&& r.2 - r.1.len() == vars - exprs.len()
            &&& r.1.len() >= exprs.len()
        }),
    decreases pat.len() - i,
{
    if i >= pat.len() {
    } else {
        let c = pat[i];
        if c == 36 {
            if i + 2 < pat.len() && pat[i + 1] == 123 && pat[i + 2] == 123 {
                lemma_lex_from_tidy(
                    pat,
                    i + 3,
                    nest + 1,
                    if nest > 0 {
                        code + seq![36u8, 123u8, 123u8]
                    } else {
                        code
                    },
                    text,
                    exprs,
                    vars,
                );
            } else if nest > 0 {
                lemma_lex_from_tidy(pat, i + 1, nest, code.push(36), text, exprs, vars);
            } else {
                let st = after_dollar(pat, i + 1, text, exprs, vars);
                if st.0 == i + 1 {
                    lemma_tidy_text(text, seq![36u8], exprs, vars);
                    assert(text.push(36u8) =~= text + seq![36u8]);
                    lemma_lex_from_tidy(pat, i + 1, nest, code, text.push(36), exprs, vars);
                } else {
                    lemma_tidy_dollar(pat, i + 1, text, exprs, vars);
                    let ni = if i + 1 <= st.0 <= pat.len() {
                        st.0
                    } else {
                        pat.len() as int
                    };
                    lemma_lex_from_tidy(pat, ni, nest, code, st.1, st.2, st.3);
                }
            }
        } else if c == 125 && i + 1 < pat.len() && pat[i + 1] == 125 && nest > 0 {
            if nest == 1 {
                lemma_tidy_emit(text, exprs, vars, FindSpec::Script(code));
                lemma_lex_from_tidy(
                    pat,
                    i + 2,
                    0,
                    Seq::empty(),
                    text + tmp_token(vars),
                    exprs.push((tmp_token(vars), FindSpec::Script(code))),
                    vars + 1,
                );
            } else {
                lemma_lex_from_tidy(
                    pat,
                    i + 2,
                    nest - 1,
                    code + seq![125u8, 125u8],
                    text,
                    exprs,
                    vars,
                );
            }
        } else if nest > 0 {
            lemma_lex_from_tidy(pat, i + 1, nest, code.push(c), text, exprs, vars);
        } else {
            lemma_tidy_text(text, seq![c], exprs, vars);
            assert(text.push(c) =~= text + seq![c]);
            lemma_lex_from_tidy(pat, i + 1, nest, code, text.push(c), exprs, vars);
        }
    }
}

/// For every raw pattern, the placeholder table's keys are exactly the
/// consecutive tokens numbered from `base`, and every key occurs in the
/// reconstituted text.  (A raw pattern that itself contains token-shaped
/// text can make further token-shaped substrings appear; the table keys are
/// still exactly the emitted tokens.)
pub proof fn lemma_placeholder_table(pat: Seq<u8>, base: nat)
    ensures
        ({
            let r = spec_lex(pat, base);
            &&& r.2 == base + r.1.len()
            &&& forall|j: int|
                0 <= j < r.1.len() ==> (#[trigger] r.1[j]).0 == tmp_token((base + j) as nat)
            &&& forall|j: int| 0 <= j < r.1.len() ==> is_sub(r.0, (#[trigger] r.1[j]).0)
        }),
{
    assert(lex_tidy(Seq::empty(), Seq::empty(), base));
    lemma_lex_from_tidy(pat, 0, 0, Seq::empty(), Seq::empty(), Seq::empty(), base);
    let r = spec_lex(pat, base);
    assert(lex_tidy(r.0, r.1, r.2));
    assert forall|j: int|
        0 <= j < r.1.len() implies (#[trigger] r.1[j]).0 == tmp_token((base + j) as nat) by {
        assert(r.1[j].0 == tmp_token((r.2 - r.1.len() + j) as nat));
    }
}

/// A leaf goal matches only a candidate with no children and the same
/// trimmed text.  In particular the empty pattern's goal, whose trimmed
/// text is empty, matches only nodes whose trimmed text is empty.
pub proof fn lemma_leaf_match_text(
    pat: Pattern,
    gt: SynTree,
    g: int,
    ct: SynTree,
    c: int,
    env: EnvV,
    fuel: nat,
)
    requires
        gt.nodes@[g].children@.len() == 0,
        sm_plain(pat, gt, g, ct, c, env, fuel) is Some,
    ensures
        ct.nodes@[c].children@.len() == 0,
        ct.spec_trimmed(c) == gt.spec_trimmed(g),
{
}

/// Nonlinear unification at leaf sites forces textual equality: when every
/// previously bound site is a leaf, a successful re-check means the
/// candidate's trimmed text equals each bound site's trimmed text.
pub proof fn lemma_nonlinear_leaf_texts(
    pat: Pattern,
    name: Seq<u8>,
    bs: Seq<usize>,
    q: int,
    ct: SynTree,
    c: int,
    acc: EnvV,
    fuel: nat,
)
    requires
        0 <= q <= bs.len(),
        forall|x: int|
            q <= x < bs.len() ==> ct.nodes@[#[trigger] bs[x] as int].children@.len() == 0,
        sm_recheck(pat, name, bs, q, ct, c, acc, fuel) is Some,
    ensures
        forall|x: int|
            q <= x < bs.len() ==> ct.spec_trimmed(#[trigger] bs[x] as int) == ct.spec_trimmed(c),
    decreases fuel,
{
    if fuel == 0 || q >= bs.len() {
    } else {
        match sm_plain(pat, ct, bs[q] as int, ct, c, acc, (fuel - 1) as nat) {
            None => {},
            Some(m) => {
                lemma_leaf_match_text(pat, ct, bs[q] as int, ct, c, acc, (fuel - 1) as nat);
                lemma_nonlinear_leaf_texts(
                    pat,
                    name,
                    bs,
                    q + 1,
                    ct,
                    c,
                    crate::env::env_insert(acc, name, c as usize),
                    (fuel - 1) as nat,
                );
            },
        }
    }
}

/// An ellipsis at the current goal child accepts the remaining candidate
/// siblings unconditionally, whatever and however many they are.
pub proof fn lemma_ellipsis_accepts_suffix(
    pat: Pattern,
    gt: SynTree,
    g: int,
    ct: SynTree,
    c: int,
    k: int,
    j: int,
    env: EnvV,
    fuel: nat,
)
    requires
        fuel > 0,
        pat.lookup(gt.spec_trimmed(gt.nodes@[g].children@[k] as int)) == Some(FindSpec::Ell),
    ensures
        sm_walk(pat, gt, g, ct, c, k, j, env, fuel) == Some((c, env)),
{
}

/// Some match of `rec` has the byte range of node `rnode`.
pub open spec fn range_among(t: SynTree, rec: Seq<Match>, rnode: int) -> bool {
    exists|b: int|
        #![trigger rec[b]]
        0 <= b < rec.len() && t.spec_range(rec[b].root as int) == t.spec_range(rnode)
}

/// Every match of the first run has its byte range among the matches of the
/// second.
pub open spec fn subset_by_range(t: SynTree, plain: Seq<Match>, rec: Seq<Match>) -> bool {
    forall|a: int|
        #![trigger plain[a]]
        0 <= a < plain.len() ==> range_among(t, rec, plain[a].root as int)
}

/// Every match of a non-recursive run has its byte range among the matches
/// of a recursive, unlimited run: the driver's contracts state that the
/// former is sound for undominated candidates and the latter covers them
/// all.
pub proof fn lemma_nonrecursive_subset(
    pat: Pattern,
    t: SynTree,
    env: EnvV,
    fuel: nat,
    plain: Seq<Match>,
    rec: Seq<Match>,
)
    requires
        sound_ok(pat, t, 0, plain, env, fuel),
        covered_ok(pat, t, 0, rec, env, fuel),
    ensures
        subset_by_range(t, plain, rec),
{
    assert(subset_by_range(t, plain, rec)) by {
        assert forall|a: int|
        #![trigger plain[a]]
        0 <= a < plain.len() implies range_among(t, rec, plain[a].root as int) by {
        let pa = plain[a];
        assert(plain[a] == pa);
        assert(exists|n: int|
            #![auto]
            0 <= n < t.len() && crate::driver::undominated(pat, t, 0, n, env, fuel)
                && spec_match_at(pat, t, n, env, fuel) == Some(
                (plain[a].root as int, plain[a].env@),
            ));
        let n = choose|n: int|
            #![auto]
            0 <= n < t.len() && crate::driver::undominated(pat, t, 0, n, env, fuel)
                && spec_match_at(pat, t, n, env, fuel) == Some(
                (plain[a].root as int, plain[a].env@),
            );
        assert(n != 0) by {
            if n == 0 {
                assert(!crate::driver::undominated(pat, t, 0, 0, env, fuel));
            }
        }
        assert(spec_match_at(pat, t, n, env, fuel) is Some);
        let b = choose|b: int|
            #![auto]
            0 <= b < rec.len() && t.spec_range(rec[b].root as int) == t.spec_range(
                spec_match_at(pat, t, n, env, fuel)->Some_0.0,
            );
        assert(0 <= b < rec.len() && t.spec_range(rec[b].root as int) == t.spec_range(
            plain[a].root as int,
        ));
        assert(range_among(t, rec, plain[a].root as int));
        }
    }
}

/// The byte ranges of the matches are pairwise non-overlapping.
pub open spec fn ranges_nonoverlapping(t: SynTree, out: Seq<Match>) -> bool {
    forall|a: int, b: int|
        #![trigger out[a], out[b]]
        0 <= a < b < out.len() ==> t.nodes@[out[a].root as int].end <= t.nodes@[out[
            b
        ].root as int].start || t.nodes@[out[b].root as int].end <= t.nodes@[out[
            a
        ].root as int].start
}

/// The matches of a non-recursive run occupy pairwise non-overlapping byte
/// ranges: each arises from an undominated candidate, undominated matched
/// candidates are pairwise incomparable in the tree, incomparable subtrees
/// have disjoint ranges, and each match root nests inside its candidate.
pub proof fn lemma_nonrecursive_nonoverlap(
    pat: Pattern,
    t: SynTree,
    env: EnvV,
    fuel: nat,
    out: Seq<Match>,
)
    requires
        t.wf(),
        sound_ok(pat, t, 0, out, env, fuel),
        forall|a: int, b: int|
            0 <= a < b < out.len() ==> t.spec_range((#[trigger] out[a]).root as int)
                != t.spec_range((#[trigger] out[b]).root as int),
    ensures
        ranges_nonoverlapping(t, out),
{
    assert(ranges_nonoverlapping(t, out)) by {
        assert forall|a: int, b: int|
            #![trigger out[a], out[b]]
            0 <= a < b < out.len() implies t.nodes@[out[a].root as int].end <= t.nodes@[out[
            b
        ].root as int].start || t.nodes@[out[b].root as int].end <= t.nodes@[out[
            a
        ].root as int].start by {
            let oa = out[a];
            let ob = out[b];
            assert(out[a] == oa && out[b] == ob);
            let na = choose|n: int|
                #![auto]
                0 <= n < t.len() && undominated(pat, t, 0, n, env, fuel) && spec_match_at(
                    pat,
                    t,
                    n,
                    env,
                    fuel,
                ) == Some((out[a].root as int, out[a].env@));
            let nb = choose|n: int|
                #![auto]
                0 <= n < t.len() && undominated(pat, t, 0, n, env, fuel) && spec_match_at(
                    pat,
                    t,
                    n,
                    env,
                    fuel,
                ) == Some((out[b].root as int, out[b].env@));
            lemma_sm_node_root(pat, pat.tree, pat.root_id as int, t, na, env, fuel);
            lemma_sm_node_root(pat, pat.tree, pat.root_id as int, t, nb, env, fuel);
            assert(in_chain(t, na, out[a].root as int));
            assert(in_chain(t, nb, out[b].root as int));
            // The two candidates are distinct: one candidate yields one root.
            assert(na != nb);
            // Neither candidate sits on the other's parent chain: a strict
            // intermediate ancestor of an undominated node cannot match.
            lemma_undominated_in_chain(pat, t, 0, na, env, fuel);
            lemma_undominated_in_chain(pat, t, 0, nb, env, fuel);
            assert(na != 0 && nb != 0) by {
                assert(t.nodes@[0].parent is None);
            }
            assert(!in_chain(t, na, nb)) by {
                if in_chain(t, na, nb) {
                    lemma_undominated_anc(pat, t, 0, nb, na, env, fuel);
                }
            }
            assert(!in_chain(t, nb, na)) by {
                if in_chain(t, nb, na) {
                    lemma_undominated_anc(pat, t, 0, na, nb, env, fuel);
                }
            }
            lemma_incomparable_disjoint(t, 0, na, nb);
            lemma_chain_range(t, na, out[a].root as int);
            lemma_chain_range(t, nb, out[b].root as int);
        }
    }
}

} // verus!
