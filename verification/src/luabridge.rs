//! The scripting bridge.
//!
//! Script chunks run inside a Lua coroutine whose callbacks (`bind`, `meta`,
//! `rx`, `match`, `pat`, `pmatch`, `rec`, and the `focus` node methods) do
//! nothing but yield a request to the host.  The verified service loop below
//! answers every request from the crate's own data — the environment, the
//! arena tree, the matcher itself — so that only the transport in and out of
//! the interpreter is trusted.

use vstd::prelude::*;
use vstd::string::StrSliceExecFns;
use vstd::string::StringSliceAdditionalSpecFns;

use crate::env::{clone_bytes, env_nodes_lt, env_wf, lemma_env_insert_wf, Env, Metavar};
use crate::pattern::Pattern;
use crate::report::diag;
use crate::tree::SynTree;

verus! {

#[verifier::external_type_specification]
#[verifier::external_body]
pub struct ExLua(rlua::Lua);

/// One scripting interpreter, shared by every chunk of a single candidate
/// attempt.
pub struct LuaSession {
    pub lua: rlua::Lua,
}

/// The interpreter handle threaded through a match attempt; `None` when the
/// pattern has no scripts, or when the interpreter could not be set up.
pub struct Bridge {
    pub sess: Option<LuaSession>,
    pub depth: u64,
}

/// Whether a regex pattern compiles; deterministic in the pattern bytes.
pub uninterp spec fn rx_valid(p: Seq<u8>) -> bool;

/// Whether a compiled regex matches a haystack; deterministic in the
/// pattern and haystack bytes.
pub uninterp spec fn rx_match(p: Seq<u8>, s: Seq<u8>) -> bool;

/// Relies on regex::Regex::new and Regex::is_match: compilation of a given
/// pattern always succeeds or always fails, and a match depends only on the
/// pattern and the haystack.
#[verifier::external_body]
pub(crate) fn rx_is_match(pat: &Vec<u8>, s: &Vec<u8>) -> (r: Option<bool>)
    ensures
        r is Some <==> rx_valid(pat@),
        r matches Some(b) ==> b == rx_match(pat@, s@),
{
    let p = match std::str::from_utf8(pat.as_slice()) {
        Ok(p) => p,
        Err(_) => {
            return None;
        },
    };
    let hay = String::from_utf8_lossy(s.as_slice());
    match regex::Regex::new(p) {
        Ok(re) => Some(re.is_match(&hay)),
        Err(_) => None,
    }
}

/// Relies on rlua::Lua::new and Context::load to install the bridge prelude.
#[verifier::external_body]
pub(crate) fn lua_open(prelude: &str) -> (r: Option<LuaSession>) {
    let lua = rlua::Lua::new();
    let ok = lua.context(|ctx| -> rlua::Result<()> { ctx.load(prelude).exec() }).is_ok();
    if ok {
        Some(LuaSession { lua })
    } else {
        None
    }
}

/// Relies on rlua::Context::create_thread: starts a fresh coroutine running
/// the prelude's entry loop, registered under the given nesting depth.
#[verifier::external_body]
pub(crate) fn lua_begin(sess: &mut LuaSession, depth: u64) -> (r: bool) {
    sess.lua.context(|ctx| -> rlua::Result<()> {
        let f: rlua::Function = ctx.globals().get("bridgestart")?;
        let th = ctx.create_thread(f)?;
        ctx.set_named_registry_value(&format!("bridgeco{}", depth), th)
    }).is_ok()
}

/// Relies on rlua::Thread::resume: sends one protocol message and hands back
/// the coroutine's answer, as three byte strings.
#[verifier::external_body]
pub(crate) fn lua_resume(sess: &mut LuaSession, depth: u64, tag: &Vec<u8>, a: &Vec<u8>, b: &Vec<
    u8,
>) -> (r: (Vec<u8>, Vec<u8>, Vec<u8>)) {
    sess.lua.context(|ctx| -> rlua::Result<(Vec<u8>, Vec<u8>, Vec<u8>)> {
        let co: rlua::Thread = ctx.named_registry_value(&format!("bridgeco{}", depth))?;
        let args = (ctx.create_string(tag.as_slice())?, ctx.create_string(a.as_slice())?,
            ctx.create_string(b.as_slice())?);
        let (x, y, z): (rlua::String, rlua::String, rlua::String) = co.resume(args)?;
        Ok((x.as_bytes().to_vec(), y.as_bytes().to_vec(), z.as_bytes().to_vec()))
    }).unwrap_or_else(|e| (b"err".to_vec(), e.to_string().into_bytes(), Vec::new()))
}

/// The Lua half of the bridge: stubs that yield a request per callback, a
/// node-handle wrapper over arena indices, and the command loop that sets
/// globals and runs the user chunk.
pub(crate) fn bridge_prelude() -> &'static str {
    r#"
local function ask(op, x, y)
  local t, a = coroutine.yield(op, x or "", y or "")
  if t == "rnil" then return nil end
  if t == "rbool" then return a == "true" end
  if t == "rstr" then return a end
  if t == "rnode" then return mknode(a) end
  if t == "rpat" then return { patid = a } end
  return nil
end
function mknode(id)
  local node = { nodeid = id }
  function node.kind(self) return ask("nkind", self.nodeid) end
  function node.text(self) return ask("ntext", self.nodeid) end
  function node.child(self, i) return ask("nchild", self.nodeid, tostring(i)) end
  function node.child_count(self) return tonumber(ask("ncount", self.nodeid)) end
  function node.parent(self) return ask("nparent", self.nodeid) end
  function node.next_sibling(self) return ask("nnext", self.nodeid) end
  function node.prev_sibling(self) return ask("nprev", self.nodeid) end
  function node.next_named_sibling(self) return ask("nnextn", self.nodeid) end
  function node.prev_named_sibling(self) return ask("nprevn", self.nodeid) end
  return node
end
function bind(name) return ask("bind", tostring(name)) end
function meta(name) return ask("meta", tostring(name)) end
function rx(r, s) return ask("rx", tostring(r), tostring(s)) end
function match(p) return ask("match", tostring(p)) end
function rec(p) return ask("rec", tostring(p)) end
function pat(p) return ask("pat", tostring(p)) end
function pmatch(p, node)
  local pid = ""
  if type(p) == "table" and p.patid then pid = p.patid end
  local nid = ""
  if type(node) == "table" and node.nodeid then nid = node.nodeid end
  return ask("pmatch", pid, nid)
end
local function enc(v)
  if v == nil then return "nil", "", "" end
  if type(v) == "boolean" then
    if v then return "bool", "true", "" else return "bool", "false", "" end
  end
  if type(v) == "string" then return "str", v, "" end
  if type(v) == "number" then return "str", tostring(v), "" end
  return "err", "script yielded an unsupported type", ""
end
function bridgestart()
  while true do
    local cmd, x, y = coroutine.yield("ready", "", "")
    if cmd == "set" then
      _G[x] = y
    elseif cmd == "focus" then
      _G["focus"] = mknode(x)
    elseif cmd == "run" then
      local f = load("return " .. x)
      if not f then
        local f2, err = load(x)
        if not f2 then return "err", tostring(err), "" end
        f = f2
      end
      return enc(f())
    else
      return "nil", "", ""
    end
  end
end
"#
}

/// What a script chunk evaluated to.
pub enum ScriptOutcome {
    /// The chunk returned a boolean.
    Bool(bool),
    /// The chunk returned a string (or a number, rendered).
    Str(Vec<u8>),
    /// The chunk returned nothing.
    Nil,
    /// The chunk failed to load or run, or the interpreter is unavailable.
    Fail,
}

/// Compare a byte vector against a literal tag.
fn tag_is(t: &Vec<u8>, s: &str) -> (r: bool)
    ensures
        r <==> t@ == s.spec_bytes(),
{
    let sb = s.as_bytes();
    if t.len() != sb.len() {
        proof {
            assert(t@.len() != s.spec_bytes().len());
        }
        return false;
    }
    let n = t.len();
    for i in 0..n
        invariant
            n == t.len() == sb@.len(),
            sb@ == s.spec_bytes(),
            forall|k: int| 0 <= k < i ==> t@[k] == sb@[k],
    {
        if t[i] != sb[i] {
            return false;
        }
    }
    proof {
        assert(t@ =~= s.spec_bytes());
    }
    true
}

/// Render a number as decimal bytes.
fn digits_of(n: usize) -> (r: Vec<u8>)
    ensures
        r@ == crate::pattern::spec_digits(n as nat),
{
    let mut out: Vec<u8> = Vec::new();
    crate::pattern::push_digits(n as u64, &mut out);
    proof {
        assert(out@ =~= crate::pattern::spec_digits(n as nat));
    }
    out
}

/// Decimal digits read left to right from `val`, as far as `k`; `None` once
/// a non-digit appears or the running value leaves the accepted range.
pub open spec fn spec_parse_index(b: Seq<u8>, k: int, val: int) -> Option<int>
    decreases b.len() - k when 0 <= k <= b.len()
{
    if k >= b.len() {
        Some(val)
    } else if b[k] < 48 || b[k] > 57 {
        None
    } else if val > 42_899_999 {
        None
    } else {
        spec_parse_index(b, k + 1, val * 10 + (b[k] - 48))
    }
}

/// Read a decimal number, rejecting anything else or anything too large.
fn parse_index(b: &Vec<u8>) -> (r: Option<usize>)
    ensures
        match r {
            Some(v) => b@.len() > 0 && spec_parse_index(b@, 0, 0) == Some(v as int),
            None => b@.len() == 0 || spec_parse_index(b@, 0, 0) is None,
        },
{
    if b.len() == 0 {
        return None;
    }
    let mut val: usize = 0;
    let n = b.len();
    for i in 0..n
        invariant
            n == b.len(),
            val <= 429_000_000,
            spec_parse_index(b@, i as int, val as int) == spec_parse_index(b@, 0, 0),
    {
        let c = b[i];
        if c < 48 || c > 57 {
            return None;
        }
        if val > 42_899_999 {
            return None;
        }
        val = val * 10 + (c - 48) as usize;
    }
    Some(val)
}

/// Every emitted global names a metavariable with exactly one binding and
/// carries that binding's raw text.
pub open spec fn singles_sound(env: Env, ct: SynTree, out: Seq<(Vec<u8>, Vec<u8>)>) -> bool {
    forall|j: int|
        #![trigger out[j]]
        0 <= j < out.len() ==> exists|i: int|
            #![auto]
            0 <= i < env@.len() && env@[i].0 == out[j].0@ && env@[i].1.len() == 1 && out[j].1@
                == ct.spec_node_text(env@[i].1[0] as int)
}

/// Every metavariable with exactly one binding among the first `i` entries
/// is emitted.
pub open spec fn singles_complete(env: Env, ct: SynTree, i: int, out: Seq<(Vec<u8>, Vec<u8>)>) -> bool {
    forall|i2: int|
        0 <= i2 < i && (#[trigger] env@[i2]).1.len() == 1 ==> exists|j: int|
            #![auto]
            0 <= j < out.len() && out[j].0@ == env@[i2].0
}

/// The names and raw texts of the metavariables with exactly one binding.
fn singleton_bindings(env: &Env, ct: &SynTree) -> (r: Vec<(Vec<u8>, Vec<u8>)>)
    requires
        ct.wf(),
        env_nodes_lt(env@, ct.len()),
    ensures
        singles_sound(*env, *ct, r@),
        singles_complete(*env, *ct, env@.len() as int, r@),
{
    let mut out: Vec<(Vec<u8>, Vec<u8>)> = Vec::new();
    let n = env.bindings.len();
    for i in 0..n
        invariant
            ct.wf(),
            env_nodes_lt(env@, ct.len()),
            n == env.bindings.len(),
            singles_sound(*env, *ct, out@),
            singles_complete(*env, *ct, i as int, out@),
    {
        let ghost out_pre = out@;
        if env.bindings[i].1.len() == 1 {
            let node = env.bindings[i].1[0];
            proof {
                assert(env@[i as int].1[0] == node);
                assert((node as int) < ct.len());
            }
            let name = clone_bytes(&env.bindings[i].0.0);
            let text = ct.node_text(node);
            out.push((name, text));
            proof {
                assert(env@[i as int] == (
                    env.bindings@[i as int].0.0@,
                    env.bindings@[i as int].1@,
                ));
                assert(env@.len() == env.bindings@.len());
                assert(env@[i as int].0 == out@[out_pre.len() as int].0@);
                assert(singles_sound(*env, *ct, out@)) by {
                    assert forall|j: int|
                        #![trigger out@[j]]
                        0 <= j < out@.len() implies exists|i2: int|
                        #![auto]
                        0 <= i2 < env@.len() && env@[i2].0 == out@[j].0@ && env@[i2].1.len()
                            == 1 && out@[j].1@ == ct.spec_node_text(env@[i2].1[0] as int) by {
                        if j < out_pre.len() {
                            assert(out@[j] == out_pre[j]);
                            assert(singles_sound(*env, *ct, out_pre));
                        } else {
                            assert(0 <= (i as int) < env@.len() && env@[i as int].0
                                == out@[j].0@ && env@[i as int].1.len() == 1 && out@[j].1@
                                == ct.spec_node_text(env@[i as int].1[0] as int));
                        }
                    }
                }
                assert(singles_complete(*env, *ct, i + 1, out@)) by {
                    assert forall|i2: int|
                        0 <= i2 < i + 1 && (#[trigger] env@[i2]).1.len() == 1 implies exists|
                        j: int,
                    |
                        #![auto]
                        0 <= j < out@.len() && out@[j].0@ == env@[i2].0 by {
                        if i2 < i {
                            assert(singles_complete(*env, *ct, i as int, out_pre));
                            let j0 = choose|j0: int|
                                #![auto]
                                0 <= j0 < out_pre.len() && out_pre[j0].0@ == env@[i2].0;
                            assert(out@[j0] == out_pre[j0]);
                        } else {
                            assert(out@.len() == out_pre.len() + 1);
                            assert(out@[out_pre.len() as int].0@ == env@[i as int].0);
                        }
                    }
                }
            }
        } else {
            proof {
                assert(env@[i as int] == (
                    env.bindings@[i as int].0.0@,
                    env.bindings@[i as int].1@,
                ));
                assert(singles_complete(*env, *ct, i + 1, out@)) by {
                    assert forall|i2: int|
                        0 <= i2 < i + 1 && (#[trigger] env@[i2]).1.len() == 1 implies exists|
                        j: int,
                    |
                        #![auto]
                        0 <= j < out@.len() && out@[j].0@ == env@[i2].0 by {
                        if i2 < i {
                            assert(singles_complete(*env, *ct, i as int, out_pre));
                        } else {
                            assert(env@[i as int].1.len() != 1);
                        }
                    }
                }
            }
        }
    }
    out
}

impl Pattern {
    /// Whether any placeholder or post-filter needs the interpreter.
    pub(crate) fn needs_lua(&self) -> (r: bool) {
        if self.wheres.len() > 0 {
            return true;
        }
        let n = self.exprs.len();
        for i in 0..n
            invariant
                n == self.exprs.len(),
        {
            if matches!(&self.exprs[i].1, crate::pattern::FindExpr::Lua(_)) {
                return true;
            }
        }
        false
    }

    /// Evaluate one script chunk against candidate `focus`, answering every
    /// callback request from the crate's own state.  Bindings made by
    /// `bind` are collected into `binds`; the caller merges them on success.
    /// Each chunk runs in its own coroutine, one nesting level deeper than
    /// the chunk that caused it.
    pub(crate) fn eval_chunk(
        &self,
        bridge: &mut Bridge,
        ct: &SynTree,
        focus: usize,
        env: &Env,
        binds: &mut Env,
        code: &Vec<u8>,
        fuel: u64,
    ) -> (r: ScriptOutcome)
        requires
            self.wf(),
            ct.wf(),
            focus < ct.len(),
            env_wf(env@),
            env_nodes_lt(env@, ct.len()),
            env_wf(old(binds)@),
            env_nodes_lt(old(binds)@, ct.len()),
        ensures
            env_wf(final(binds)@),
            env_nodes_lt(final(binds)@, ct.len()),
            old(bridge).depth >= 1000 ==> r is Fail && final(binds)@ == old(binds)@,
        decreases fuel, 3int,
    {
        if bridge.depth >= 1000 {
            return ScriptOutcome::Fail;
        }
        bridge.depth = bridge.depth + 1;
        let r = self.eval_chunk_at(bridge, ct, focus, env, binds, code, fuel);
        if bridge.depth >= 1 {
            bridge.depth = bridge.depth - 1;
        }
        r
    }

    /// The chunk evaluation proper, at the coroutine depth already recorded
    /// in the bridge.
    fn eval_chunk_at(
        &self,
        bridge: &mut Bridge,
        ct: &SynTree,
        focus: usize,
        env: &Env,
        binds: &mut Env,
        code: &Vec<u8>,
        fuel: u64,
    ) -> (r: ScriptOutcome)
        requires
            self.wf(),
            ct.wf(),
            focus < ct.len(),
            env_wf(env@),
            env_nodes_lt(env@, ct.len()),
            env_wf(old(binds)@),
            env_nodes_lt(old(binds)@, ct.len()),
        ensures
            env_wf(final(binds)@),
            env_nodes_lt(final(binds)@, ct.len()),
        decreases fuel, 2int,
    {
        if fuel == 0 {
            return ScriptOutcome::Fail;
        }
        let depth = bridge.depth;
        let ok = match &mut bridge.sess {
            None => false,
            Some(s) => lua_begin(s, depth),
        };
        if !ok {
            return ScriptOutcome::Fail;
        }
        let empty: Vec<u8> = Vec::new();
        let mut msg_tag: Vec<u8> = Vec::new();
        let mut msg_a: Vec<u8> = Vec::new();
        let mut msg_b: Vec<u8> = Vec::new();
        // Start the coroutine, then push the globals of the scope.
        let first = match &mut bridge.sess {
            None => {
                return ScriptOutcome::Fail;
            },
            Some(s) => lua_resume(s, depth, &empty, &empty, &empty),
        };
        if !tag_is(&first.0, "ready") {
            return ScriptOutcome::Fail;
        }
        let singles = singleton_bindings(env, ct);
        let ns = singles.len();
        for si in 0..ns
            invariant
                ns == singles.len(),
                env_wf(binds@),
                env_nodes_lt(binds@, ct.len()),
                ct.wf(),
        {
            let st = match &mut bridge.sess {
                None => {
                    return ScriptOutcome::Fail;
                },
                Some(s) => lua_resume(
                    s,
                    depth,
                    &str_bytes("set"),
                    &singles[si].0,
                    &singles[si].1,
                ),
            };
            if !tag_is(&st.0, "ready") {
                return ScriptOutcome::Fail;
            }
        }
        let t_text = ct.trimmed_text(focus);
        let st = match &mut bridge.sess {
            None => {
                return ScriptOutcome::Fail;
            },
            Some(s) => lua_resume(s, depth, &str_bytes("set"), &str_bytes("t"), &t_text),
        };
        if !tag_is(&st.0, "ready") {
            return ScriptOutcome::Fail;
        }
        let k_text = ct.kind_bytes(focus);
        let st = match &mut bridge.sess {
            None => {
                return ScriptOutcome::Fail;
            },
            Some(s) => lua_resume(s, depth, &str_bytes("set"), &str_bytes("k"), &k_text),
        };
        if !tag_is(&st.0, "ready") {
            return ScriptOutcome::Fail;
        }
        let st = match &mut bridge.sess {
            None => {
                return ScriptOutcome::Fail;
            },
            Some(s) => lua_resume(s, depth, &str_bytes("focus"), &digits_of(focus), &empty),
        };
        if !tag_is(&st.0, "ready") {
            return ScriptOutcome::Fail;
        }
        // Run the chunk and service its requests.
        let mut reply = match &mut bridge.sess {
            None => {
                return ScriptOutcome::Fail;
            },
            Some(s) => lua_resume(s, depth, &str_bytes("run"), code, &empty),
        };
        let mut pats: Vec<Pattern> = Vec::new();
        let mut steps: u64 = fuel;
        while steps > 0
            invariant
                self.wf(),
                ct.wf(),
                focus < ct.len(),
                env_wf(env@),
                env_nodes_lt(env@, ct.len()),
                env_wf(binds@),
                env_nodes_lt(binds@, ct.len()),
                steps <= fuel,
                fuel >= 1,
                forall|x: int| 0 <= x < pats@.len() ==> (#[trigger] pats@[x]).wf(),
            decreases steps,
        {
            steps = steps - 1;
            msg_tag = reply.0;
            msg_a = reply.1;
            msg_b = reply.2;
            if tag_is(&msg_tag, "bool") {
                return ScriptOutcome::Bool(tag_is(&msg_a, "true"));
            }
            if tag_is(&msg_tag, "str") {
                return ScriptOutcome::Str(msg_a);
            }
            if tag_is(&msg_tag, "nil") {
                return ScriptOutcome::Nil;
            }
            if tag_is(&msg_tag, "err") {
                diag("script chunk failed");
                return ScriptOutcome::Fail;
            }
            // A request: compute the answer from the crate's own state.
            let (rt, ra): (Vec<u8>, Vec<u8>) = if tag_is(&msg_tag, "bind") {
                let ghost binds_pre = binds@;
                binds.insert(Metavar(clone_bytes(&msg_a)), focus);
                proof {
                    lemma_env_insert_wf(binds_pre, msg_a@, focus, ct.len());
                }
                (str_bytes("rnil"), Vec::new())
            } else if tag_is(&msg_tag, "meta") {
                match env.get(&msg_a) {
                    Some(bs) => {
                        if bs.len() == 1 {
                            let node = bs[0];
                            proof {
                                crate::env::lemma_env_find_bounds(env@, msg_a@);
                            }
                            (str_bytes("rstr"), ct.node_text(node))
                        } else {
                            (str_bytes("rnil"), Vec::new())
                        }
                    },
                    None => (str_bytes("rnil"), Vec::new()),
                }
            } else if tag_is(&msg_tag, "rx") {
                match rx_is_match(&msg_a, &msg_b) {
                    Some(true) => (str_bytes("rbool"), str_bytes("true")),
                    Some(false) => (str_bytes("rbool"), str_bytes("false")),
                    None => {
                        diag("bad regex in script");
                        (str_bytes("rbool"), str_bytes("false"))
                    },
                }
            } else if tag_is(&msg_tag, "match") {
                let hit = self.subpattern_matches_at(bridge, ct, focus, env, &msg_a, fuel - 1);
                (str_bytes("rbool"), bool_bytes(hit))
            } else if tag_is(&msg_tag, "rec") {
                let hit = self.subpattern_matches_under(ct, focus, env, &msg_a, fuel - 1);
                (str_bytes("rbool"), bool_bytes(hit))
            } else if tag_is(&msg_tag, "pat") {
                match Pattern::parse_from(
                    &self.lang,
                    &self.node_types,
                    &msg_a,
                    self.exprs.len(),
                    None,
                ) {
                    Some(p) => {
                        let id = pats.len();
                        pats.push(p);
                        (str_bytes("rpat"), digits_of(id))
                    },
                    None => (str_bytes("rnil"), Vec::new()),
                }
            } else if tag_is(&msg_tag, "pmatch") {
                let hit = match (parse_index(&msg_a), parse_index(&msg_b)) {
                    (Some(pid), Some(nid)) => {
                        if pid < pats.len() && nid < ct.node_count() {
                            let sub = &pats[pid];
                            match sub.m_node(&sub.tree, sub.root_id, ct, nid, env, bridge, fuel
                                - 1) {
                                Some(_) => true,
                                None => false,
                            }
                        } else {
                            false
                        }
                    },
                    _ => false,
                };
                (str_bytes("rbool"), bool_bytes(hit))
            } else if tag_is(&msg_tag, "nkind") {
                match parse_index(&msg_a) {
                    Some(nid) => {
                        if nid < ct.node_count() {
                            (str_bytes("rstr"), ct.kind_bytes(nid))
                        } else {
                            (str_bytes("rnil"), Vec::new())
                        }
                    },
                    None => (str_bytes("rnil"), Vec::new()),
                }
            } else if tag_is(&msg_tag, "ntext") {
                match parse_index(&msg_a) {
                    Some(nid) => {
                        if nid < ct.node_count() {
                            (str_bytes("rstr"), ct.node_text(nid))
                        } else {
                            (str_bytes("rnil"), Vec::new())
                        }
                    },
                    None => (str_bytes("rnil"), Vec::new()),
                }
            } else if tag_is(&msg_tag, "ncount") {
                match parse_index(&msg_a) {
                    Some(nid) => {
                        if nid < ct.node_count() {
                            (str_bytes("rstr"), digits_of(ct.child_count(nid)))
                        } else {
                            (str_bytes("rnil"), Vec::new())
                        }
                    },
                    None => (str_bytes("rnil"), Vec::new()),
                }
            } else if tag_is(&msg_tag, "nchild") {
                match (parse_index(&msg_a), parse_index(&msg_b)) {
                    (Some(nid), Some(cidx)) => {
                        if nid < ct.node_count() {
                            match ct.child(nid, cidx) {
                                Some(c) => (str_bytes("rnode"), digits_of(c)),
                                None => (str_bytes("rnil"), Vec::new()),
                            }
                        } else {
                            (str_bytes("rnil"), Vec::new())
                        }
                    },
                    _ => (str_bytes("rnil"), Vec::new()),
                }
            } else if tag_is(&msg_tag, "nparent") {
                node_nav_reply(ct, &msg_a, 0)
            } else if tag_is(&msg_tag, "nnext") {
                node_nav_reply(ct, &msg_a, 1)
            } else if tag_is(&msg_tag, "nprev") {
                node_nav_reply(ct, &msg_a, 2)
            } else if tag_is(&msg_tag, "nnextn") {
                node_nav_reply(ct, &msg_a, 3)
            } else if tag_is(&msg_tag, "nprevn") {
                node_nav_reply(ct, &msg_a, 4)
            } else {
                return ScriptOutcome::Fail;
            };
            reply = match &mut bridge.sess {
                None => {
                    return ScriptOutcome::Fail;
                },
                Some(s) => lua_resume(s, depth, &rt, &ra, &empty),
            };
        }
        ScriptOutcome::Fail
    }

    /// Compile a nested pattern and test it against the candidate's root,
    /// as the `match` callback asks.
    pub(crate) fn subpattern_matches_at(
        &self,
        bridge: &mut Bridge,
        ct: &SynTree,
        focus: usize,
        env: &Env,
        raw: &Vec<u8>,
        fuel: u64,
    ) -> (r: bool)
        requires
            self.wf(),
            ct.wf(),
            focus < ct.len(),
            env_wf(env@),
            env_nodes_lt(env@, ct.len()),
        decreases fuel, 0int,
    {
        if fuel == 0 {
            return false;
        }
        match Pattern::parse_from(&self.lang, &self.node_types, raw, self.exprs.len(), None) {
            None => {
                diag("could not compile nested pattern");
                false
            },
            Some(sub) => {
                match sub.m_node(&sub.tree, sub.root_id, ct, focus, env, bridge, fuel - 1) {
                    Some(_) => true,
                    None => false,
                }
            },
        }
    }

    /// Compile a nested pattern and search for it anywhere inside the
    /// candidate subtree, as the `rec` callback asks.
    pub(crate) fn subpattern_matches_under(
        &self,
        ct: &SynTree,
        focus: usize,
        env: &Env,
        raw: &Vec<u8>,
        fuel: u64,
    ) -> (r: bool)
        requires
            self.wf(),
            ct.wf(),
            focus < ct.len(),
            env_wf(env@),
            env_nodes_lt(env@, ct.len()),
        decreases fuel, 0int,
    {
        if fuel == 0 {
            return false;
        }
        match Pattern::parse_from(&self.lang, &self.node_types, raw, self.exprs.len(), None) {
            None => {
                diag("could not compile nested pattern");
                false
            },
            Some(sub) => {
                let ms = sub.matches_from(ct, focus, env, true, Some(1), fuel - 1);
                ms.len() > 0
            },
        }
    }
}

/// The node a navigation request resolves to, for the exactly specified
/// directions: 0 parent, 1 next sibling, 2 previous sibling.
pub open spec fn spec_nav(t: SynTree, nid: int, which: u8) -> Option<usize> {
    if which == 0 {
        t.nodes@[nid].parent
    } else if which == 1 {
        t.spec_next_sibling(nid)
    } else {
        t.spec_prev_sibling(nid)
    }
}

/// Answer one node-navigation request: 0 parent, 1 next sibling, 2 previous
/// sibling, 3 next named sibling, 4 previous named sibling.  For the first
/// three the reply encodes exactly the corresponding query on the arena;
/// the named variants reply with a named node or nothing.
fn node_nav_reply(ct: &SynTree, arg: &Vec<u8>, which: u8) -> (r: (Vec<u8>, Vec<u8>))
    requires
        ct.wf(),
    ensures
        which <= 2 ==> match spec_parse_index(arg@, 0, 0) {
            Some(nid) => {
                if arg@.len() > 0 && 0 <= nid < ct.len() {
                    match spec_nav(*ct, nid, which) {
                        Some(d) => r.0@ == "rnode".spec_bytes() && r.1@
                            == crate::pattern::spec_digits(d as nat),
                        None => r.0@ == "rnil".spec_bytes(),
                    }
                } else {
                    r.0@ == "rnil".spec_bytes()
                }
            },
            None => r.0@ == "rnil".spec_bytes(),
        },
{
    match parse_index(arg) {
        Some(nid) => {
            if nid < ct.node_count() {
                let dest = if which == 0 {
                    ct.parent(nid)
                } else if which == 1 {
                    ct.next_sibling(nid)
                } else if which == 2 {
                    ct.prev_sibling(nid)
                } else if which == 3 {
                    ct.next_named_sibling(nid)
                } else {
                    ct.prev_named_sibling(nid)
                };
                match dest {
                    Some(d) => (str_bytes("rnode"), digits_of(d)),
                    None => (str_bytes("rnil"), Vec::new()),
                }
            } else {
                (str_bytes("rnil"), Vec::new())
            }
        },
        None => (str_bytes("rnil"), Vec::new()),
    }
}

/// The bytes of a short tag.
fn str_bytes(s: &str) -> (r: Vec<u8>)
    ensures
        r@ == s.spec_bytes(),
{
    s.as_bytes_vec()
}

/// "true" or "false" as bytes.
fn bool_bytes(b: bool) -> (r: Vec<u8>) {
    if b {
        str_bytes("true")
    } else {
        str_bytes("false")
    }
}

} // verus!
