//! Patterns: lexing placeholders out of a raw pattern, re-parsing the
//! reconstituted text with the target grammar, and selecting the goal node.
//!
//! The lexer is specified by a recursive function over the raw bytes; the
//! executable lexer is proved to compute exactly that function.

use vstd::prelude::*;

use crate::env::Metavar;
use crate::node_types::NodeTypes;
use crate::report::diag;
use crate::tree::{copy_range, SynTree};
use crate::ts::parse_tree;

verus! {

/// An embedded script chunk, as raw bytes.
#[derive(Clone, Debug, Eq, Hash, PartialEq)]
pub struct LuaCode(pub Vec<u8>);

/// An opaque placeholder token substituted into the reconstituted text.
#[derive(Clone, Debug, Eq, Hash, PartialEq)]
pub struct TmpVar(pub Vec<u8>);

/// What a placeholder stands for.
#[derive(Clone, Debug, Eq, Hash, PartialEq)]
pub enum FindExpr {
    /// `$_`: matches any one subtree, binds nothing.
    Anonymous,
    /// `$..`: accepts the rest of a sibling chain.
    Ellipsis,
    /// `$name`: binds a metavariable.
    Metavar(Metavar),
    /// `${{ ... }}`: a script predicate or replacement.
    Lua(LuaCode),
}

/// Specification-level counterpart of `FindExpr`.
pub enum FindSpec {
    Anon,
    Ell,
    Meta(Seq<u8>),
    Script(Seq<u8>),
}

/// The view of a placeholder expression.
pub open spec fn fe_view(e: FindExpr) -> FindSpec {
    match e {
        FindExpr::Anonymous => FindSpec::Anon,
        FindExpr::Ellipsis => FindSpec::Ell,
        FindExpr::Metavar(m) => FindSpec::Meta(m.0@),
        FindExpr::Lua(c) => FindSpec::Script(c.0@),
    }
}

/// The view of a placeholder table.
pub open spec fn tview(t: Seq<(TmpVar, FindExpr)>) -> Seq<(Seq<u8>, FindSpec)> {
    t.map(|i: int, kv: (TmpVar, FindExpr)| (kv.0.0@, fe_view(kv.1)))
}

/// What `FindExpr::parse` yields on given bytes.
pub open spec fn spec_find_parse(s: Seq<u8>) -> FindSpec {
    if s == seq![95u8] {
        FindSpec::Anon
    } else if s == seq![46u8, 46u8] {
        FindSpec::Ell
    } else {
        FindSpec::Meta(s)
    }
}

impl FindExpr {
    /// Classify the text that followed a `$` sign.
    pub fn parse(s: Vec<u8>) -> (r: FindExpr)
        ensures
            fe_view(r) == spec_find_parse(s@),
    {
        if s.len() == 1 && s[0] == 95 {
            proof {
                assert(s@ =~= seq![95u8]);
            }
            return FindExpr::Anonymous;
        }
        if s.len() == 2 && s[0] == 46 && s[1] == 46 {
            proof {
                assert(s@ =~= seq![46u8, 46u8]);
            }
            return FindExpr::Ellipsis;
        }
        proof {
            assert(s@ != seq![95u8] && s@ != seq![46u8, 46u8]) by {
                if s@ == seq![95u8] {
                    assert(s@.len() == 1 && s@[0] == 95);
                }
                if s@ == seq![46u8, 46u8] {
                    assert(s@.len() == 2 && s@[0] == 46 && s@[1] == 46);
                }
            }
        }
        FindExpr::Metavar(Metavar(s))
    }
}

/// The fixed stem of every placeholder token.
pub open spec fn tmp_prefix() -> Seq<u8> {
    seq![109u8, 111u8, 103u8, 103u8, 108u8, 111u8, 95u8, 116u8, 109u8, 112u8, 95u8, 118u8, 97u8, 114u8, 95u8]
}

/// Decimal digits of `n`, most significant first.
pub open spec fn spec_digits(n: nat) -> Seq<u8>
    decreases n,
{
    if n < 10 {
        seq![(48 + n) as u8]
    } else {
        spec_digits(n / 10).push((48 + n % 10) as u8)
    }
}

/// The token for placeholder number `n`.
pub open spec fn tmp_token(n: nat) -> Seq<u8> {
    tmp_prefix() + spec_digits(n)
}

/// Append the decimal digits of `n`.
pub(crate) fn push_digits(n: u64, out: &mut Vec<u8>)
    ensures
        final(out)@ == old(out)@ + spec_digits(n as nat),
    decreases n,
{
    if n < 10 {
        out.push(48 + n as u8);
        proof {
            assert(final(out)@ =~= old(out)@ + spec_digits(n as nat));
        }
    } else {
        push_digits(n / 10, out);
        out.push(48 + (n % 10) as u8);
        proof {
            assert(final(out)@ =~= old(out)@ + spec_digits(n as nat));
        }
    }
}

/// The token bytes for placeholder number `n`.
pub fn tmp_var_bytes(n: usize) -> (r: Vec<u8>)
    ensures
        r@ == tmp_token(n as nat),
{
    let mut out: Vec<u8> = Vec::new();
    out.push(109);
    out.push(111);
    out.push(103);
    out.push(103);
    out.push(108);
    out.push(111);
    out.push(95);
    out.push(116);
    out.push(109);
    out.push(112);
    out.push(95);
    out.push(118);
    out.push(97);
    out.push(114);
    out.push(95);
    proof {
        assert(out@ =~= tmp_prefix());
    }
    push_digits(n as u64, &mut out);
    out
}

/// ASCII letter.
pub open spec fn is_alpha(b: u8) -> bool {
    (65 <= b && b <= 90) || (97 <= b && b <= 122)
}

/// Length of the ASCII-alphabetic run starting at `i`.
pub open spec fn alpha_run(pat: Seq<u8>, i: int) -> int
    decreases pat.len() - i when 0 <= i <= pat.len()
{
    if i < pat.len() && is_alpha(pat[i]) {
        1 + alpha_run(pat, i + 1)
    } else {
        0
    }
}

proof fn lemma_alpha_run(pat: Seq<u8>, i: int, run: int)
    requires
        0 <= i <= i + run <= pat.len(),
        forall|k: int| i <= k < i + run ==> is_alpha(pat[k]),
        i + run == pat.len() || !is_alpha(pat[i + run]),
    ensures
        alpha_run(pat, i) == run,
    decreases run,
{
    if run > 0 {
        lemma_alpha_run(pat, i + 1, run - 1);
    }
}

/// State after the checks that follow a `$` sign at position `j`: the next
/// position and the text, table and counter with any emitted placeholders.
pub open spec fn after_dollar(
    pat: Seq<u8>,
    j: int,
    text: Seq<u8>,
    exprs: Seq<(Seq<u8>, FindSpec)>,
    vars: nat,
) -> (int, Seq<u8>, Seq<(Seq<u8>, FindSpec)>, nat) {
    let s2 = after_dollar_s2(pat, j, text, exprs, vars);
    let run = alpha_run(pat, s2.0);
    if run > 0 {
        (
            s2.0 + run,
            s2.1 + tmp_token(s2.3),
            s2.2.push((tmp_token(s2.3), FindSpec::Meta(pat.subrange(s2.0, s2.0 + run)))),
            s2.3 + 1,
        )
    } else {
        s2
    }
}

/// The whole lexer, from position `i` in state (`nest`, `code`, `text`,
/// `exprs`, `vars`), to the final reconstituted text, placeholder table and
/// counter.
pub open spec fn lex_from(
    pat: Seq<u8>,
    i: int,
    nest: int,
    code: Seq<u8>,
    text: Seq<u8>,
    exprs: Seq<(Seq<u8>, FindSpec)>,
    vars: nat,
) -> (Seq<u8>, Seq<(Seq<u8>, FindSpec)>, nat)
    decreases pat.len() - i when 0 <= i <= pat.len()
{
    if i >= pat.len() {
        (text, exprs, vars)
    } else {
        let c = pat[i];
        if c == 36 {
            if i + 2 < pat.len() && pat[i + 1] == 123 && pat[i + 2] == 123 {
                if nest > 0 {
                    lex_from(
                        pat,
                        i + 3,
                        nest + 1,
                        code + seq![36u8, 123u8, 123u8],
                        text,
                        exprs,
                        vars,
                    )
                } else {
                    lex_from(pat, i + 3, nest + 1, code, text, exprs, vars)
                }
            } else if nest > 0 {
                lex_from(pat, i + 1, nest, code.push(36), text, exprs, vars)
            } else {
                let st = after_dollar(pat, i + 1, text, exprs, vars);
                if st.0 == i + 1 {
                    // No placeholder follows: the dollar sign is literal.
                    lex_from(pat, i + 1, nest, code, text.push(36), exprs, vars)
                } else {
                    let ni = if i + 1 <= st.0 <= pat.len() {
                        st.0
                    } else {
                        pat.len() as int
                    };
                    lex_from(pat, ni, nest, code, st.1, st.2, st.3)
                }
            }
        } else if c == 125 && i + 1 < pat.len() && pat[i + 1] == 125 && nest > 0 {
            if nest == 1 {
                lex_from(
                    pat,
                    i + 2,
                    0,
                    Seq::empty(),
                    text + tmp_token(vars),
                    exprs.push((tmp_token(vars), FindSpec::Script(code))),
                    vars + 1,
                )
            } else {
                lex_from(pat, i + 2, nest - 1, code + seq![125u8, 125u8], text, exprs, vars)
            }
        } else if nest > 0 {
            lex_from(pat, i + 1, nest, code.push(c), text, exprs, vars)
        } else {
            lex_from(pat, i + 1, nest, code, text.push(c), exprs, vars)
        }
    }
}

/// What the lexer yields on a whole raw pattern, numbering placeholders from
/// `base`.
pub open spec fn spec_lex(pat: Seq<u8>, base: nat) -> (Seq<u8>, Seq<(Seq<u8>, FindSpec)>, nat) {
    lex_from(pat, 0, 0, Seq::empty(), Seq::empty(), Seq::empty(), base)
}

/// Append all of `src` to `dst`.
pub fn append_bytes(dst: &mut Vec<u8>, src: &Vec<u8>)
    ensures
        final(dst)@ == old(dst)@ + src@,
{
    let n = src.len();
    for i in 0..n
        invariant
            n == src.len(),
            dst@ =~= old(dst)@ + src@.take(i as int),
    {
        dst.push(src[i]);
        proof {
            assert(dst@ =~= old(dst)@ + src@.take(i + 1));
        }
    }
    proof {
        assert(old(dst)@ + src@.take(n as int) =~= old(dst)@ + src@);
    }
}

/// ASCII letter test on a byte.
fn is_alpha_byte(b: u8) -> (r: bool)
    ensures
        r == is_alpha(b),
{
    (65 <= b && b <= 90) || (97 <= b && b <= 122)
}

/// Raw patterns and placeholder counters beyond this size are refused; it is
/// far beyond any real pattern and keeps index arithmetic in range on every
/// machine.
pub open spec fn lex_limit() -> int {
    0x1000_0000
}

/// Run the lexer: split placeholders out of `pat`, numbering them from
/// `base`.  Returns the reconstituted text, the placeholder table and the
/// next free placeholder number.
pub(crate) fn lex(pat: &Vec<u8>, base: usize) -> (r: (Vec<u8>, Vec<(TmpVar, FindExpr)>, usize))
    requires
        pat@.len() < lex_limit(),
        base < lex_limit(),
    ensures
        (r.0@, tview(r.1@), r.2 as nat) == spec_lex(pat@, base as nat),
{
    let len = pat.len();
    let mut i: usize = 0;
    let mut nest: i64 = 0;
    let mut code: Vec<u8> = Vec::new();
    let mut text: Vec<u8> = Vec::new();
    let mut exprs: Vec<(TmpVar, FindExpr)> = Vec::new();
    let mut vars: usize = base;
    proof {
        assert(tview(exprs@) =~= Seq::<(Seq<u8>, FindSpec)>::empty());
    }
    while i < len
        invariant
            len == pat@.len(),
            pat@.len() < lex_limit(),
            base < lex_limit(),
            i <= len,
            vars <= base + i,
            0 <= nest as int <= i as int,
            lex_from(pat@, i as int, nest as int, code@, text@, tview(exprs@), vars as nat)
                == spec_lex(pat@, base as nat),
        decreases len - i,
    {
        let ghost gi = i as int;
        let ghost gnest = nest as int;
        let ghost gcode = code@;
        let ghost gtext = text@;
        let ghost gexprs = tview(exprs@);
        let ghost gvars = vars as nat;
        let c = pat[i];
        if c == 36 {
            if i + 2 < len && pat[i + 1] == 123 && pat[i + 2] == 123 {
                if nest > 0 {
                    code.push(36);
                    code.push(123);
                    code.push(123);
                    proof {
                        assert(code@ =~= gcode + seq![36u8, 123u8, 123u8]);
                    }
                }
                nest = nest + 1;
                i = i + 3;
            } else if nest > 0 {
                code.push(36);
                i = i + 1;
            } else {
                let j = lex_dollar(pat, i + 1, &mut text, &mut exprs, &mut vars);
                proof {
                    let st = after_dollar(pat@, gi + 1, gtext, gexprs, gvars);
                    assert(j as int == st.0 && text@ == st.1 && tview(exprs@) == st.2
                        && vars as nat == st.3);
                }
                if j == i + 1 {
                    text.push(36);
                    i = i + 1;
                } else {
                    i = j;
                }
            }
        } else if c == 125 && i + 1 < len && pat[i + 1] == 125 && nest > 0 {
            if nest == 1 {
                let tok = tmp_var_bytes(vars);
                append_bytes(&mut text, &tok);
                let sealed = code;
                code = Vec::new();
                exprs.push((TmpVar(tok), FindExpr::Lua(LuaCode(sealed))));
                proof {
                    assert(tview(exprs@) =~= gexprs.push((tmp_token(gvars), FindSpec::Script(
                        gcode,
                    ))));
                }
                vars = vars + 1;
                nest = 0;
            } else {
                code.push(125);
                code.push(125);
                proof {
                    assert(code@ =~= gcode + seq![125u8, 125u8]);
                }
                nest = nest - 1;
            }
            i = i + 2;
        } else if nest > 0 {
            code.push(c);
            i = i + 1;
        } else {
            text.push(c);
            i = i + 1;
        }
    }
        (text, exprs, vars)
}

/// Handle the placeholder checks after a `$`, mirroring `after_dollar`.
/// Returns the next scan position.
fn lex_dollar(
    pat: &Vec<u8>,
    j: usize,
    text: &mut Vec<u8>,
    exprs: &mut Vec<(TmpVar, FindExpr)>,
    vars: &mut usize,
) -> (r: usize)
    requires
        j <= pat@.len(),
        pat@.len() < lex_limit(),
        *old(vars) < 2 * lex_limit(),
    ensures
        ({
            let st = after_dollar(pat@, j as int, old(text)@, tview(old(exprs)@), *old(vars) as nat);
            r as int == st.0 && final(text)@ == st.1 && tview(final(exprs)@) == st.2 && *final(vars) as nat == st.3 && r <= pat@.len() && *final(vars) <= *old(vars) + 3
        }),
{
    let len = pat.len();
    let mut pos = j;
    if pos < len && pat[pos] == 95 {
        let tok = tmp_var_bytes(*vars);
        append_bytes(text, &tok);
        exprs.push((TmpVar(tok), FindExpr::Anonymous));
        proof {
            assert(tview(exprs@) =~= tview(old(exprs)@).push((tmp_token(*old(vars) as nat),
            FindSpec::Anon)));
        }
        *vars = *vars + 1;
        pos = pos + 1;
    }
    let ghost s1 = after_dollar_s1(pat@, j as int, old(text)@, tview(old(exprs)@), *old(vars) as nat);
    proof {
        assert(pos as int == s1.0 && text@ == s1.1 && tview(exprs@) == s1.2 && *vars as nat
            == s1.3);
    }
    if pos < len && pat[pos] == 46 {
        if pos + 1 < len && pat[pos + 1] == 46 {
            let tok = tmp_var_bytes(*vars);
            append_bytes(text, &tok);
            exprs.push((TmpVar(tok), FindExpr::Ellipsis));
            proof {
                assert(tview(exprs@) =~= s1.2.push((tmp_token(s1.3), FindSpec::Ell)));
            }
            *vars = *vars + 1;
            pos = pos + 2;
        } else {
            pos = pos + 1;
        }
    }
    let ghost s2 = after_dollar_s2(pat@, j as int, old(text)@, tview(old(exprs)@), *old(vars) as nat);
    proof {
        assert(pos as int == s2.0 && text@ == s2.1 && tview(exprs@) == s2.2 && *vars as nat
            == s2.3);
    }
    let mut run: usize = 0;
    while pos + run < len && is_alpha_byte(pat[pos + run])
        invariant
            pos + run <= len,
            len == pat@.len(),
            forall|k: int| pos <= k < pos + run ==> is_alpha(pat@[k]),
        decreases len - pos - run,
    {
        run = run + 1;
    }
    proof {
        lemma_alpha_run(pat@, pos as int, run as int);
    }
    if run > 0 {
        let name = copy_range(pat, pos, pos + run);
        let tok = tmp_var_bytes(*vars);
        append_bytes(text, &tok);
        exprs.push((TmpVar(tok), FindExpr::Metavar(Metavar(name))));
        proof {
            assert(tview(exprs@) =~= s2.2.push((tmp_token(s2.3), FindSpec::Meta(pat@.subrange(
                s2.0,
                s2.0 + alpha_run(pat@, s2.0),
            )))));
        }
        *vars = *vars + 1;
        pos = pos + run;
    }
    pos
}

/// The state after only the anonymous check of `after_dollar`.
pub open spec fn after_dollar_s1(
    pat: Seq<u8>,
    j: int,
    text: Seq<u8>,
    exprs: Seq<(Seq<u8>, FindSpec)>,
    vars: nat,
) -> (int, Seq<u8>, Seq<(Seq<u8>, FindSpec)>, nat) {
    if j < pat.len() && pat[j] == 95 {
        (j + 1, text + tmp_token(vars), exprs.push((tmp_token(vars), FindSpec::Anon)), vars + 1)
    } else {
        (j, text, exprs, vars)
    }
}

/// The state after the anonymous and ellipsis checks of `after_dollar`.
pub open spec fn after_dollar_s2(
    pat: Seq<u8>,
    j: int,
    text: Seq<u8>,
    exprs: Seq<(Seq<u8>, FindSpec)>,
    vars: nat,
) -> (int, Seq<u8>, Seq<(Seq<u8>, FindSpec)>, nat) {
    let s1 = after_dollar_s1(pat, j, text, exprs, vars);
    if s1.0 < pat.len() && pat[s1.0] == 46 {
        if s1.0 + 1 < pat.len() && pat[s1.0 + 1] == 46 {
            (
                s1.0 + 2,
                s1.1 + tmp_token(s1.3),
                s1.2.push((tmp_token(s1.3), FindSpec::Ell)),
                s1.3 + 1,
            )
        } else {
            (s1.0 + 1, s1.1, s1.2, s1.3)
        }
    } else {
        s1
    }
}

/// Index of `key` in a placeholder-table view, if present.
pub open spec fn tv_find(t: Seq<(Seq<u8>, FindSpec)>, key: Seq<u8>) -> Option<int>
    decreases t.len(),
{
    if t.len() == 0 {
        None
    } else if t[0].0 == key {
        Some(0int)
    } else {
        match tv_find(t.drop_first(), key) {
            None => None,
            Some(i) => Some(i + 1),
        }
    }
}

/// `tv_find` over a prefix extended by one entry.
proof fn lemma_tv_find_extend(t: Seq<(Seq<u8>, FindSpec)>, key: Seq<u8>, i: int)
    requires
        0 <= i < t.len(),
        tv_find(t.take(i), key) is None,
    ensures
        t[i].0 == key ==> tv_find(t.take(i + 1), key) == Some(i),
        t[i].0 != key ==> tv_find(t.take(i + 1), key) is None,
    decreases i,
{
    if i == 0 {
        assert(t.take(1)[0] == t[0]);
        if t[0].0 != key {
            assert(t.take(1).drop_first() =~= Seq::<(Seq<u8>, FindSpec)>::empty());
        }
    } else {
        assert(t.take(i)[0] == t[0]);
        assert(t.take(i + 1)[0] == t[0]);
        assert(t.take(i).drop_first() =~= t.drop_first().take(i - 1));
        assert(t.take(i + 1).drop_first() =~= t.drop_first().take(i));
        assert(t.drop_first()[i - 1] == t[i]);
        lemma_tv_find_extend(t.drop_first(), key, i - 1);
    }
}

/// A hit at `i` of a prefix is a hit of the whole table.
proof fn lemma_tv_find_prefix(t: Seq<(Seq<u8>, FindSpec)>, key: Seq<u8>, i: int)
    requires
        0 <= i < t.len(),
        tv_find(t.take(i), key) is None,
        t[i].0 == key,
    ensures
        tv_find(t, key) == Some(i),
    decreases i,
{
    if i == 0 {
    } else {
        assert(t.take(i)[0] == t[0]);
        assert(t[0].0 != key);
        assert(t.take(i).drop_first() =~= t.drop_first().take(i - 1));
        assert(t.drop_first()[i - 1] == t[i]);
        lemma_tv_find_prefix(t.drop_first(), key, i - 1);
    }
}

/// A hit of `tv_find` is in bounds and on the key.
pub proof fn lemma_tv_find_bounds(t: Seq<(Seq<u8>, FindSpec)>, key: Seq<u8>)
    ensures
        tv_find(t, key) matches Some(i) ==> 0 <= i < t.len() && t[i].0 == key,
    decreases t.len(),
{
    if t.len() > 0 && t[0].0 != key {
        lemma_tv_find_bounds(t.drop_first(), key);
        match tv_find(t.drop_first(), key) {
            Some(i) => {
                assert(t.drop_first()[i] == t[i + 1]);
            },
            None => {},
        }
    }
}

/// The reconstituted text wrapped in braces, the first retry of the
/// expression hack.
pub open spec fn wrap_braces(t: Seq<u8>) -> Seq<u8> {
    seq![123u8, 32u8] + t + seq![32u8, 125u8]
}

/// The reconstituted text with a semicolon appended, the second retry.
pub open spec fn wrap_semi(t: Seq<u8>) -> Seq<u8> {
    t + seq![59u8]
}

/// Descend from node `i` while it has exactly one named child, stopping at a
/// requested kind.
pub open spec fn descend_goal(t: SynTree, i: int, unwrap: Option<Seq<u8>>) -> int
    decreases t.len() - i when 0 <= i < t.len()
{
    let nc = t.spec_named_children(i);
    if nc.len() == 1 && !(unwrap matches Some(u) && t.nodes@[i].kind@ == u) {
        let c = nc[0] as int;
        if i < c < t.len() {
            descend_goal(t, c, unwrap)
        } else {
            i
        }
    } else {
        i
    }
}

/// The goal node of a parsed pattern tree: strip a single-child root wrapper
/// once, then descend through single named children.
pub open spec fn spec_goal(t: SynTree, unwrap: Option<Seq<u8>>) -> int {
    let r0 = if t.nodes@[0].children@.len() == 1 {
        t.nodes@[0].children@[0] as int
    } else {
        0
    };
    descend_goal(t, if 0 < r0 < t.len() { r0 } else { 0 }, unwrap)
}

/// The view of an optional unwrap kind.
pub open spec fn uview(u: Option<&Vec<u8>>) -> Option<Seq<u8>> {
    match u {
        None => None,
        Some(v) => Some(v@),
    }
}

/// Find the goal node of a well-formed pattern tree.
fn find_goal(t: &SynTree, unwrap: Option<&Vec<u8>>) -> (r: usize)
    requires
        t.wf(),
    ensures
        r as int == spec_goal(*t, uview(unwrap)),
        r < t.len(),
{
    let mut cur: usize = 0;
    if t.child_count(0) == 1 {
        cur = match t.child(0, 0) {
            Some(c) => c,
            None => 0,
        };
    }
    loop
        invariant
            t.wf(),
            cur < t.len(),
            descend_goal(*t, cur as int, uview(unwrap)) == spec_goal(*t, uview(unwrap)),
        decreases t.len() - cur,
    {
        if t.named_child_count(cur) != 1 {
            return cur;
        }
        match unwrap {
            Some(u) => {
                let kind = t.kind_bytes(cur);
                if crate::env::bytes_eq(&kind, u) {
                    return cur;
                }
            },
            None => {},
        }
        match t.named_child(cur, 0) {
            Some(c) => {
                cur = c;
            },
            None => {
                return cur;
            },
        }
    }
}

/// Which expression-hack variant of the reconstituted text was kept: the
/// first variant whose parse reported no error, or the plain text when all
/// three did (a warning is printed in that case).
#[derive(Clone, Copy, Debug, PartialEq, Eq, Structural)]
pub enum HackVariant {
    /// The reconstituted text itself.
    Plain,
    /// The text wrapped in braces.
    Braced,
    /// The text with a semicolon appended.
    Terminated,
}

/// A compiled pattern: the placeholder table, the target grammar, the schema,
/// the reconstituted text with its parse tree, the goal node, and any
/// attached post-filter chunks.
#[derive(Clone, Debug)]
pub struct Pattern {
    pub exprs: Vec<(TmpVar, FindExpr)>,
    pub lang: tree_sitter::Language,
    pub node_types: NodeTypes,
    pub root_id: usize,
    pub text: Vec<u8>,
    pub tree: SynTree,
    pub wheres: Vec<LuaCode>,
    pub base: usize,
    pub hack: HackVariant,
}

impl Pattern {
    /// A usable pattern: its tree is well formed and its goal is a node.
    pub open spec fn wf(self) -> bool {
        &&& self.tree.wf()
        &&& self.root_id < self.tree.len()
        &&& self.tree.text@ == self.text@
    }

    /// The placeholder-table view.
    pub open spec fn table(self) -> Seq<(Seq<u8>, FindSpec)> {
        tview(self.exprs@)
    }

    /// What a goal text stands for, if it is a placeholder token.
    pub open spec fn lookup(self, key: Seq<u8>) -> Option<FindSpec> {
        match tv_find(self.table(), key) {
            None => None,
            Some(i) => Some(self.table()[i].1),
        }
    }

    /// No script placeholders anywhere in the table.
    pub open spec fn script_free(self) -> bool {
        forall|i: int| 0 <= i < self.table().len() ==> !((#[trigger] self.table()[i]).1 is Script)
    }

    /// The placeholder token for index `i`.
    pub fn meta(i: usize) -> (r: TmpVar)
        ensures
            r.0@ == tmp_token(i as nat),
    {
        TmpVar(tmp_var_bytes(i))
    }

    /// Look up the placeholder expression whose token is `key`.
    pub fn find_expr(&self, key: &Vec<u8>) -> (r: Option<&FindExpr>)
        ensures
            match r {
                Some(e) => self.lookup(key@) == Some(fe_view(*e)),
                None => self.lookup(key@) is None,
            },
    {
        let n = self.exprs.len();
        for i in 0..n
            invariant
                n == self.exprs.len(),
                tv_find(self.table().take(i as int), key@) is None,
        {
            proof {
                assert(self.table()[i as int] == (self.exprs@[i as int].0.0@, fe_view(
                    self.exprs@[i as int].1,
                )));
                lemma_tv_find_extend(self.table(), key@, i as int);
            }
            if crate::env::bytes_eq(&self.exprs[i].0.0, key) {
                proof {
                    lemma_tv_find_prefix(self.table(), key@, i as int);
                }
                return Some(&self.exprs[i].1);
            }
        }
        proof {
            assert(self.table().take(n as int) =~= self.table());
        }
        None
    }

    /// Compile a raw pattern, numbering placeholders from `vars` and honoring
    /// an optional unwrap kind.  `None` when the grammar is rejected, the
    /// parser yields nothing usable, or the pattern is beyond the size limit.
    #[verifier::rlimit(60)]
    pub(crate) fn parse_from(
        lang: &tree_sitter::Language,
        node_types: &NodeTypes,
        pat: &Vec<u8>,
        vars: usize,
        unwrap_until: Option<&Vec<u8>>,
    ) -> (r: Option<Pattern>)
        ensures
            r matches Some(p) ==> {
                let lx = spec_lex(pat@, vars as nat);
                &&& p.wf()
                &&& p.table() == lx.1
                &&& p.base == vars
                &&& p.wheres@.len() == 0
                &&& p.root_id as int == spec_goal(p.tree, uview(unwrap_until))
                &&& (p.hack is Plain ==> p.text@ == lx.0)
                &&& (p.hack is Braced ==> p.text@ == wrap_braces(lx.0))
                &&& (p.hack is Terminated ==> p.text@ == wrap_semi(lx.0))
            },
    {
        if pat.len() >= 0x1000_0000 || vars >= 0x1000_0000 {
            return None;
        }
        let (text0, exprs, _vend) = lex(pat, vars);
        let (tree0, err0) = match parse_tree(lang, &text0) {
            None => {
                return None;
            },
            Some(p) => p,
        };
        let mut text = text0;
        let mut tree = tree0;
        let mut hack = HackVariant::Plain;
        if err0 {
            let mut braced: Vec<u8> = Vec::new();
            braced.push(123);
            braced.push(32);
            append_bytes(&mut braced, &text);
            braced.push(32);
            braced.push(125);
            proof {
                assert(braced@ =~= wrap_braces(spec_lex(pat@, vars as nat).0));
            }
            let mut done = false;
            match parse_tree(lang, &braced) {
                Some((t2, e2)) => {
                    if !e2 {
                        text = braced;
                        tree = t2;
                        hack = HackVariant::Braced;
                        done = true;
                    }
                },
                None => {},
            }
            if !done {
                let mut semi: Vec<u8> = Vec::new();
                append_bytes(&mut semi, &text);
                semi.push(59);
                proof {
                    assert(semi@ =~= wrap_semi(spec_lex(pat@, vars as nat).0));
                }
                match parse_tree(lang, &semi) {
                    Some((t3, e3)) => {
                        if !e3 {
                            text = semi;
                            tree = t3;
                            hack = HackVariant::Terminated;
                            done = true;
                        }
                    },
                    None => {},
                }
            }
            if !done {
                diag("[WARN] Parse error in pattern!");
            }
        }
        let goal = find_goal(&tree, unwrap_until);
        Some(
            Pattern {
                exprs,
                lang: lang.clone(),
                node_types: node_types.clone(),
                root_id: goal,
                text,
                tree,
                wheres: Vec::new(),
                base: vars,
                hack,
            },
        )
    }

    /// Compile a raw pattern.
    pub fn parse(lang: &tree_sitter::Language, node_types: &NodeTypes, pat: Vec<u8>) -> (r:
        Option<Pattern>)
        ensures
            r matches Some(p) ==> {
                let lx = spec_lex(pat@, 0);
                &&& p.wf()
                &&& p.table() == lx.1
                &&& p.base == 0
                &&& p.wheres@.len() == 0
                &&& p.root_id as int == spec_goal(p.tree, None)
                &&& (p.hack is Plain ==> p.text@ == lx.0)
                &&& (p.hack is Braced ==> p.text@ == wrap_braces(lx.0))
                &&& (p.hack is Terminated ==> p.text@ == wrap_semi(lx.0))
            },
    {
        Self::parse_from(lang, node_types, &pat, 0, None)
    }

    /// Compile a raw pattern, unwrapping the goal no deeper than the given
    /// kind.
    pub fn parse_kind(
        lang: &tree_sitter::Language,
        node_types: &NodeTypes,
        pat: Vec<u8>,
        kind: &Vec<u8>,
    ) -> (r: Option<Pattern>)
        ensures
            r matches Some(p) ==> {
                let lx = spec_lex(pat@, 0);
                &&& p.wf()
                &&& p.table() == lx.1
                &&& p.base == 0
                &&& p.wheres@.len() == 0
                &&& p.root_id as int == spec_goal(p.tree, Some(kind@))
            },
    {
        Self::parse_from(lang, node_types, &pat, 0, Some(kind))
    }

    /// Attach post-filter chunks to be evaluated against each match.
    pub fn add_where(&mut self, chunks: Vec<LuaCode>)
        ensures
            final(self).wheres@ == old(self).wheres@ + chunks@,
            final(self).exprs == old(self).exprs,
            final(self).tree == old(self).tree,
            final(self).root_id == old(self).root_id,
            final(self).text == old(self).text,
            final(self).base == old(self).base,
    {
        let mut chunks = chunks;
        self.wheres.append(&mut chunks);
    }
}

} // verus!
