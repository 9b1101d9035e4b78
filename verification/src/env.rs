//! The binding environment: a mapping from metavariable names to the sets of
//! input-tree nodes they are bound to.
//!
//! The environment is kept as an association list so that insertion order is
//! deterministic; its specification view is the sequence of entries.  Keys are
//! unique, and each binding list holds a node at most once.

use vstd::prelude::*;

verus! {

/// A user-visible metavariable name (the `x` of `$x`), as raw bytes.
#[derive(Clone, Debug, Eq, Hash, PartialEq)]
pub struct Metavar(pub Vec<u8>);

/// The binding environment of a match in progress: each metavariable maps to
/// the list of node ids (into the input tree) bound to it, in insertion
/// order, without duplicates.
#[derive(Clone, Debug)]
pub struct Env {
    pub bindings: Vec<(Metavar, Vec<usize>)>,
}

/// Specification view of an environment: a sequence of (name, node ids) pairs.
pub type EnvV = Seq<(Seq<u8>, Seq<usize>)>;

/// Index of `key` in the association sequence, if present.
pub open spec fn env_find(e: EnvV, key: Seq<u8>) -> Option<int>
    decreases e.len(),
{
    if e.len() == 0 {
        None
    } else if e[0].0 == key {
        Some(0int)
    } else {
        match env_find(e.drop_first(), key) {
            None => None,
            Some(i) => Some(i + 1),
        }
    }
}

/// Insert one binding: a missing key gets a fresh entry, an existing key has
/// the node appended unless already present.
pub open spec fn env_insert(e: EnvV, key: Seq<u8>, node: usize) -> EnvV {
    match env_find(e, key) {
        None => e.push((key, seq![node])),
        Some(i) => {
            if e[i].1.contains(node) {
                e
            } else {
                e.update(i, (key, e[i].1.push(node)))
            }
        },
    }
}

/// Merge a second environment into a first, entry by entry, node by node.
pub open spec fn env_extend(e: EnvV, other: EnvV) -> EnvV
    decreases other.len(),
{
    if other.len() == 0 {
        e
    } else {
        env_extend(env_extend_one(e, other[0].0, other[0].1), other.drop_first())
    }
}

/// Insert every node of one entry, in order.
pub open spec fn env_extend_one(e: EnvV, key: Seq<u8>, nodes: Seq<usize>) -> EnvV
    decreases nodes.len(),
{
    if nodes.len() == 0 {
        e
    } else {
        env_extend_one(env_insert(e, key, nodes[0]), key, nodes.drop_first())
    }
}

/// Keys are pairwise distinct and no binding list repeats a node.
pub open spec fn env_wf(e: EnvV) -> bool {
    &&& forall|i: int, j: int| 0 <= i < j < e.len() ==> e[i].0 != e[j].0
    &&& forall|i: int, a: int, b: int|
        0 <= i < e.len() && 0 <= a < b < e[i].1.len() ==> e[i].1[a] != e[i].1[b]
}

/// All bound node ids lie below `n`.
pub open spec fn env_nodes_lt(e: EnvV, n: int) -> bool {
    forall|i: int, j: int| 0 <= i < e.len() && 0 <= j < e[i].1.len() ==> e[i].1[j] < n
}

/// The view of a binding vector.
pub open spec fn env_view_of(b: Seq<(Metavar, Vec<usize>)>) -> EnvV {
    b.map(|i: int, kv: (Metavar, Vec<usize>)| (kv.0.0@, kv.1@))
}

impl Env {
    pub open spec fn view(self) -> EnvV {
        env_view_of(self.bindings@)
    }

    pub fn new() -> (r: Env)
        ensures
            r@ =~= Seq::<(Seq<u8>, Seq<usize>)>::empty(),
    {
        Env { bindings: Vec::new() }
    }

    /// The binding list of `key`, if any.
    pub fn get(&self, key: &Vec<u8>) -> (r: Option<&Vec<usize>>)
        ensures
            match r {
                Some(v) => env_find(self@, key@) matches Some(i) && self@[i].1 == v@,
                None => env_find(self@, key@) is None,
            },
    {
        let n = self.bindings.len();
        for i in 0..n
            invariant
                n == self.bindings.len(),
                env_find(self@.take(i as int), key@) is None,
        {
            proof {
                lemma_env_find_extend(self@, key@, i as int);
            }
            if bytes_eq(&self.bindings[i].0.0, key) {
                proof {
                    lemma_env_find_prefix(self@, key@, i as int);
                }
                return Some(&self.bindings[i].1);
            }
        }
        proof {
            assert(self@.take(n as int) =~= self@);
        }
        None
    }

    /// Insert `node` under `key`, appending the key if it is new and skipping
    /// nodes already bound.
    pub fn insert(&mut self, key: Metavar, node: usize)
        ensures
            final(self)@ =~= env_insert(old(self)@, key.0@, node),
    {
        let n = self.bindings.len();
        for i in 0..n
            invariant
                n == self.bindings.len(),
                self@ == old(self)@,
                env_find(self@.take(i as int), key.0@) is None,
        {
            proof {
                lemma_env_find_extend(self@, key.0@, i as int);
            }
            if bytes_eq(&self.bindings[i].0.0, &key.0) {
                proof {
                    lemma_env_find_prefix(self@, key.0@, i as int);
                }
                let present = contains_usize(&self.bindings[i].1, node);
                if !present {
                    let (mv, mut nodes) = self.bindings.remove(i);
                    nodes.push(node);
                    self.bindings.insert(i, (mv, nodes));
                    proof {
                        assert(self@ =~= env_insert(old(self)@, key.0@, node));
                    }
                }
                return ;
            }
        }
        proof {
            assert(self@.take(n as int) =~= self@);
        }
        let mut single = Vec::new();
        single.push(node);
        self.bindings.push((key, single));
        proof {
            assert(self@ =~= env_insert(old(self)@, key.0@, node));
        }
    }

    /// Merge every binding of `other` into `self`.
    pub fn extend(&mut self, other: &Env)
        ensures
            final(self)@ =~= env_extend(old(self)@, other@),
    {
        let n = other.bindings.len();
        for i in 0..n
            invariant
                n == other.bindings.len(),
                self@ =~= env_extend(old(self)@, other@.take(i as int)),
        {
            let key = Metavar(clone_bytes(&other.bindings[i].0.0));
            let m = other.bindings[i].1.len();
            let ghost pre = self@;
            for j in 0..m
                invariant
                    m == other.bindings[i as int].1.len(),
                    n == other.bindings.len(),
                    i < n,
                    key.0@ == other.bindings[i as int].0.0@,
                    self@ =~= env_extend_one(
                        pre,
                        other@[i as int].0,
                        other@[i as int].1.take(j as int),
                    ),
            {
                proof {
                    lemma_extend_one_snoc(pre, other@[i as int].0, other@[i as int].1, j as int);
                }
                let node = other.bindings[i].1[j];
                self.insert(Metavar(clone_bytes(&key.0)), node);
            }
            proof {
                assert(other@[i as int].1.take(m as int) =~= other@[i as int].1);
                assert(other@.take(i + 1).drop_last() =~= other@.take(i as int));
                lemma_env_extend_snoc(old(self)@, other@, i as int);
            }
        }
        proof {
            assert(other@.take(n as int) =~= other@);
        }
    }
}

/// `env_find` over a prefix extended by one non-matching entry.
proof fn lemma_env_find_extend(e: EnvV, key: Seq<u8>, i: int)
    requires
        0 <= i < e.len(),
        env_find(e.take(i), key) is None,
    ensures
        e[i].0 == key ==> env_find(e.take(i + 1), key) == Some(i),
        e[i].0 != key ==> env_find(e.take(i + 1), key) is None,
    decreases i,
{
    if i == 0 {
        assert(e.take(1)[0] == e[0]);
        if e[0].0 != key {
            assert(e.take(1).drop_first() =~= Seq::<(Seq<u8>, Seq<usize>)>::empty());
        }
    } else {
        assert(e.take(i)[0] == e[0]);
        assert(e.take(i + 1)[0] == e[0]);
        assert(e.take(i).drop_first() =~= e.drop_first().take(i - 1));
        assert(e.take(i + 1).drop_first() =~= e.drop_first().take(i));
        assert(e.drop_first()[i - 1] == e[i]);
        lemma_env_find_extend(e.drop_first(), key, i - 1);
    }
}

/// A hit at index `i` of a prefix is a hit of the whole sequence.
proof fn lemma_env_find_prefix(e: EnvV, key: Seq<u8>, i: int)
    requires
        0 <= i < e.len(),
        env_find(e.take(i), key) is None,
        e[i].0 == key,
    ensures
        env_find(e, key) == Some(i),
    decreases i,
{
    if i == 0 {
    } else {
        assert(e.take(i)[0] == e[0]);
        assert(e[0].0 != key);
        assert(e.take(i).drop_first() =~= e.drop_first().take(i - 1));
        assert(e.drop_first()[i - 1] == e[i]);
        lemma_env_find_prefix(e.drop_first(), key, i - 1);
    }
}

/// Unrolling `env_extend_one` from the right.
proof fn lemma_extend_one_snoc(e: EnvV, key: Seq<u8>, nodes: Seq<usize>, j: int)
    requires
        0 <= j < nodes.len(),
    ensures
        env_extend_one(e, key, nodes.take(j + 1)) == env_insert(
            env_extend_one(e, key, nodes.take(j)),
            key,
            nodes[j],
        ),
    decreases j,
{
    if j == 0 {
        assert(nodes.take(1).drop_first() =~= Seq::<usize>::empty());
        assert(nodes.take(1)[0] == nodes[0]);
        assert(nodes.take(0) =~= Seq::<usize>::empty());
        assert(env_extend_one(e, key, Seq::<usize>::empty()) == e);
        assert(env_extend_one(env_insert(e, key, nodes[0]), key, Seq::<usize>::empty())
            == env_insert(e, key, nodes[0]));
    } else {
        assert(nodes.take(j + 1)[0] == nodes[0]);
        assert(nodes.take(j)[0] == nodes[0]);
        assert(nodes.take(j + 1).drop_first() =~= nodes.drop_first().take(j));
        assert(nodes.take(j).drop_first() =~= nodes.drop_first().take(j - 1));
        assert(nodes.drop_first()[j - 1] == nodes[j]);
        lemma_extend_one_snoc(env_insert(e, key, nodes[0]), key, nodes.drop_first(), j - 1);
        assert(env_extend_one(e, key, nodes.take(j + 1)) == env_extend_one(
            env_insert(e, key, nodes[0]),
            key,
            nodes.drop_first().take(j),
        ));
        assert(env_extend_one(e, key, nodes.take(j)) == env_extend_one(
            env_insert(e, key, nodes[0]),
            key,
            nodes.drop_first().take(j - 1),
        ));
    }
}

/// Unrolling `env_extend` from the right.
proof fn lemma_env_extend_snoc(e: EnvV, other: EnvV, i: int)
    requires
        0 <= i < other.len(),
    ensures
        env_extend(e, other.take(i + 1)) == env_extend_one(
            env_extend(e, other.take(i)),
            other[i].0,
            other[i].1,
        ),
    decreases i,
{
    if i == 0 {
        assert(other.take(1).drop_first() =~= Seq::<(Seq<u8>, Seq<usize>)>::empty());
        assert(other.take(1)[0] == other[0]);
        assert(other.take(0) =~= Seq::<(Seq<u8>, Seq<usize>)>::empty());
        assert(env_extend(e, Seq::<(Seq<u8>, Seq<usize>)>::empty()) == e);
        assert(env_extend(
            env_extend_one(e, other[0].0, other[0].1),
            Seq::<(Seq<u8>, Seq<usize>)>::empty(),
        ) == env_extend_one(e, other[0].0, other[0].1));
    } else {
        assert(other.take(i + 1)[0] == other[0]);
        assert(other.take(i)[0] == other[0]);
        assert(other.take(i + 1).drop_first() =~= other.drop_first().take(i));
        assert(other.take(i).drop_first() =~= other.drop_first().take(i - 1));
        assert(other.drop_first()[i - 1] == other[i]);
        lemma_env_extend_snoc(
            env_extend_one(e, other[0].0, other[0].1),
            other.drop_first(),
            i - 1,
        );
        assert(env_extend(e, other.take(i + 1)) == env_extend(
            env_extend_one(e, other[0].0, other[0].1),
            other.drop_first().take(i),
        ));
        assert(env_extend(e, other.take(i)) == env_extend(
            env_extend_one(e, other[0].0, other[0].1),
            other.drop_first().take(i - 1),
        ));
    }
}

/// Byte-for-byte equality of two byte vectors.
pub fn bytes_eq(a: &Vec<u8>, b: &Vec<u8>) -> (r: bool)
    ensures
        r <==> a@ == b@,
{
    if a.len() != b.len() {
        proof {
            assert(a@.len() != b@.len());
        }
        return false;
    }
    let n = a.len();
    for i in 0..n
        invariant
            n == a.len() == b.len(),
            forall|k: int| 0 <= k < i ==> a@[k] == b@[k],
    {
        if a[i] != b[i] {
            return false;
        }
    }
    proof {
        assert(a@ =~= b@);
    }
    true
}

/// Whether `v` holds `x`.
pub fn contains_usize(v: &Vec<usize>, x: usize) -> (r: bool)
    ensures
        r <==> v@.contains(x),
{
    let n = v.len();
    for i in 0..n
        invariant
            n == v.len(),
            forall|k: int| 0 <= k < i ==> v@[k] != x,
    {
        if v[i] == x {
            return true;
        }
    }
    false
}

/// A fresh copy of a byte vector.
pub fn clone_bytes(v: &Vec<u8>) -> (r: Vec<u8>)
    ensures
        r@ == v@,
{
    let mut out: Vec<u8> = Vec::new();
    let n = v.len();
    for i in 0..n
        invariant
            n == v.len(),
            out@ =~= v@.take(i as int),
    {
        out.push(v[i]);
        proof {
            assert(out@ =~= v@.take(i + 1));
        }
    }
    proof {
        assert(v@.take(n as int) =~= v@);
    }
    out
}

/// Copy a vector of node ids.
pub fn copy_usizes(v: &Vec<usize>) -> (r: Vec<usize>)
    ensures
        r@ == v@,
{
    let mut out: Vec<usize> = Vec::new();
    let n = v.len();
    for i in 0..n
        invariant
            n == v.len(),
            out@ =~= v@.take(i as int),
    {
        out.push(v[i]);
        proof {
            assert(out@ =~= v@.take(i + 1));
        }
    }
    proof {
        assert(v@.take(n as int) =~= v@);
    }
    out
}

impl Env {
    /// A deep copy of the environment.
    pub fn duplicate(&self) -> (r: Env)
        ensures
            r@ == self@,
    {
        let mut out: Vec<(Metavar, Vec<usize>)> = Vec::new();
        let n = self.bindings.len();
        for i in 0..n
            invariant
                n == self.bindings.len(),
                out@.len() == i,
                env_view_of(out@) =~= self@.take(i as int),
        {
            let name = Metavar(clone_bytes(&self.bindings[i].0.0));
            let nodes = copy_usizes(&self.bindings[i].1);
            let ghost out_pre = out@;
            let ghost namev = name.0@;
            let ghost nodesv = nodes@;
            out.push((name, nodes));
            proof {
                assert(self@[i as int] == (
                    self.bindings@[i as int].0.0@,
                    self.bindings@[i as int].1@,
                ));
                assert(out@[i as int].0.0@ == namev && out@[i as int].1@ == nodesv);
                assert(env_view_of(out@)[i as int] == (namev, nodesv));
                assert forall|q: int| 0 <= q < out_pre.len() implies #[trigger] env_view_of(
                    out@,
                )[q] == env_view_of(out_pre)[q] by {
                    assert(out@[q] == out_pre[q]);
                }
                assert(env_view_of(out@) =~= self@.take(i + 1));
            }
        }
        let r = Env { bindings: out };
        proof {
            assert(self@.take(n as int) =~= self@);
        }
        r
    }
}

/// A miss of `env_find` means no entry has the key.
pub proof fn lemma_env_find_none(e: EnvV, key: Seq<u8>)
    ensures
        env_find(e, key) is None ==> forall|i: int| 0 <= i < e.len() ==> e[i].0 != key,
    decreases e.len(),
{
    if e.len() > 0 && e[0].0 != key {
        lemma_env_find_none(e.drop_first(), key);
        if env_find(e, key) is None {
            assert forall|i: int| 0 <= i < e.len() implies e[i].0 != key by {
                if i > 0 {
                    assert(e.drop_first()[i - 1] == e[i]);
                }
            }
        }
    }
}

/// A hit of `env_find` is in bounds and on the key.
pub proof fn lemma_env_find_bounds(e: EnvV, key: Seq<u8>)
    ensures
        env_find(e, key) matches Some(i) ==> 0 <= i < e.len() && e[i].0 == key,
    decreases e.len(),
{
    if e.len() > 0 && e[0].0 != key {
        lemma_env_find_bounds(e.drop_first(), key);
        match env_find(e.drop_first(), key) {
            Some(i) => {
                assert(e.drop_first()[i] == e[i + 1]);
            },
            None => {},
        }
    }
}

/// Inserting one binding keeps the environment well formed and bounded.
pub proof fn lemma_env_insert_wf(e: EnvV, key: Seq<u8>, n: usize, bound: int)
    requires
        env_wf(e),
        env_nodes_lt(e, bound),
        (n as int) < bound,
    ensures
        env_wf(env_insert(e, key, n)),
        env_nodes_lt(env_insert(e, key, n), bound),
{
    lemma_env_find_none(e, key);
    lemma_env_find_bounds(e, key);
    let r = env_insert(e, key, n);
    match env_find(e, key) {
        None => {
            assert forall|i: int, j: int| 0 <= i < j < r.len() implies r[i].0 != r[j].0 by {
                if j < e.len() {
                } else {
                    assert(r[j].0 == key);
                    assert(r[i] == e[i]);
                }
            }
        },
        Some(i) => {
            if e[i].1.contains(n) {
            } else {
                assert forall|a: int, b: int|
                    0 <= a < b < r[i].1.len() implies r[i].1[a] != r[i].1[b] by {
                    if b == e[i].1.len() {
                        if e[i].1.contains(r[i].1[a]) {
                        } else {
                            assert(e[i].1[a] == r[i].1[a]);
                            assert(e[i].1.contains(e[i].1[a]));
                        }
                    }
                }
            }
        },
    }
}

/// Merging one entry keeps the environment well formed and bounded.
pub proof fn lemma_env_extend_one_wf(e: EnvV, key: Seq<u8>, nodes: Seq<usize>, bound: int)
    requires
        env_wf(e),
        env_nodes_lt(e, bound),
        forall|q: int| 0 <= q < nodes.len() ==> (nodes[q] as int) < bound,
    ensures
        env_wf(env_extend_one(e, key, nodes)),
        env_nodes_lt(env_extend_one(e, key, nodes), bound),
    decreases nodes.len(),
{
    if nodes.len() > 0 {
        lemma_env_insert_wf(e, key, nodes[0], bound);
        lemma_env_extend_one_wf(env_insert(e, key, nodes[0]), key, nodes.drop_first(), bound);
    }
}

/// Merging a bounded environment keeps the result well formed and bounded.
pub proof fn lemma_env_extend_wf(e: EnvV, other: EnvV, bound: int)
    requires
        env_wf(e),
        env_nodes_lt(e, bound),
        env_nodes_lt(other, bound),
    ensures
        env_wf(env_extend(e, other)),
        env_nodes_lt(env_extend(e, other), bound),
    decreases other.len(),
{
    if other.len() > 0 {
        lemma_env_extend_one_wf(e, other[0].0, other[0].1, bound);
        assert forall|i: int, j: int|
            0 <= i < other.drop_first().len() && 0 <= j < other.drop_first()[i].1.len()
            implies (other.drop_first()[i].1[j] as int) < bound by {
            assert(other.drop_first()[i] == other[i + 1]);
        }
        lemma_env_extend_wf(env_extend_one(e, other[0].0, other[0].1), other.drop_first(), bound);
    }
}

/// `key` is bound to `node` somewhere in the environment.
pub open spec fn env_has(e: EnvV, key: Seq<u8>, node: usize) -> bool {
    exists|i: int| 0 <= i < e.len() && (#[trigger] e[i]).0 == key && e[i].1.contains(node)
}

/// Every binding of `small` is present in `big`.
pub open spec fn env_includes(big: EnvV, small: EnvV) -> bool {
    forall|key: Seq<u8>, node: usize|
        #[trigger] env_has(small, key, node) ==> env_has(big, key, node)
}

/// Inclusion is transitive.
pub proof fn lemma_includes_trans(a: EnvV, b: EnvV, c: EnvV)
    requires
        env_includes(a, b),
        env_includes(b, c),
    ensures
        env_includes(a, c),
{
}

/// Inserting one binding keeps every existing binding.
pub proof fn lemma_insert_includes(e: EnvV, key: Seq<u8>, node: usize)
    ensures
        env_includes(env_insert(e, key, node), e),
{
    let r = env_insert(e, key, node);
    lemma_env_find_bounds(e, key);
    assert forall|k: Seq<u8>, n: usize| #[trigger] env_has(e, k, n) implies env_has(r, k, n) by {
        let i = choose|i: int| 0 <= i < e.len() && (#[trigger] e[i]).0 == k && e[i].1.contains(n);
        match env_find(e, key) {
            None => {
                assert(r[i] == e[i]);
            },
            Some(q) => {
                if e[q].1.contains(node) {
                } else {
                    if i == q {
                        let w = choose|w: int| 0 <= w < e[i].1.len() && e[i].1[w] == n;
                        assert(r[i].1[w] == n);
                        assert(r[i].1.contains(n));
                    } else {
                        assert(r[i] == e[i]);
                    }
                }
            },
        }
    }
}

/// Merging one entry keeps every existing binding.
pub proof fn lemma_extend_one_includes(e: EnvV, key: Seq<u8>, nodes: Seq<usize>)
    ensures
        env_includes(env_extend_one(e, key, nodes), e),
    decreases nodes.len(),
{
    if nodes.len() > 0 {
        lemma_insert_includes(e, key, nodes[0]);
        lemma_extend_one_includes(env_insert(e, key, nodes[0]), key, nodes.drop_first());
        lemma_includes_trans(
            env_extend_one(e, key, nodes),
            env_insert(e, key, nodes[0]),
            e,
        );
    }
}

/// Merging a second environment keeps every existing binding.
pub proof fn lemma_extend_includes(e: EnvV, other: EnvV)
    ensures
        env_includes(env_extend(e, other), e),
    decreases other.len(),
{
    if other.len() > 0 {
        lemma_extend_one_includes(e, other[0].0, other[0].1);
        lemma_extend_includes(env_extend_one(e, other[0].0, other[0].1), other.drop_first());
        lemma_includes_trans(
            env_extend(e, other),
            env_extend_one(e, other[0].0, other[0].1),
            e,
        );
    }
}

} // verus!
