//! An arena model of a concrete syntax tree.
//!
//! Nodes live in one vector, in pre-order: every child's index is strictly
//! greater than its parent's, which gives an easy termination measure for
//! walks.  Each node records its grammar kind, its byte range in the source
//! buffer, its children and its position under its parent.

use vstd::prelude::*;

use crate::env::clone_bytes;

verus! {

/// One node of a parsed tree.
#[derive(Clone, Debug)]
pub struct NodeData {
    /// Numeric grammar kind.
    pub kind_id: u16,
    /// Kind name, as bytes.
    pub kind: Vec<u8>,
    /// Whether the grammar marks this node as named.
    pub named: bool,
    /// Start byte offset into the source buffer.
    pub start: usize,
    /// End byte offset (exclusive).
    pub end: usize,
    /// Index of the parent node; `None` for the root.
    pub parent: Option<usize>,
    /// Position of this node in its parent's child list.
    pub child_idx: usize,
    /// Indices of the children, in order.
    pub children: Vec<usize>,
}

/// A parsed tree together with the source buffer it indexes into.
#[derive(Clone, Debug)]
pub struct SynTree {
    pub nodes: Vec<NodeData>,
    pub text: Vec<u8>,
}

impl SynTree {
    pub open spec fn len(self) -> int {
        self.nodes@.len() as int
    }

    /// Structural well-formedness: byte ranges lie inside the buffer,
    /// children point forward, and parent links agree with child lists.
    pub open spec fn wf(self) -> bool {
        &&& 0 < self.nodes@.len() <= usize::MAX
        &&& self.nodes@[0].parent is None
        &&& forall|i: int|
            0 <= i < self.len() ==> (#[trigger] self.nodes@[i]).start <= self.nodes@[i].end
                <= self.text@.len()
        &&& forall|i: int, j: int|
            0 <= i < self.len() && 0 <= j < self.nodes@[i].children@.len() ==> {
                let c = #[trigger] self.nodes@[i].children@[j] as int;
                &&& i < c < self.len()
                &&& self.nodes@[c].parent == Some(i as usize)
                &&& self.nodes@[c].child_idx == j
                &&& self.nodes@[i].start <= self.nodes@[c].start
                &&& self.nodes@[c].end <= self.nodes@[i].end
            }
        &&& forall|i: int, a: int, b: int|
            0 <= i < self.len() && 0 <= a < b < self.nodes@[i].children@.len()
                ==> self.nodes@[#[trigger] self.nodes@[i].children@[a] as int].end
                <= self.nodes@[#[trigger] self.nodes@[i].children@[b] as int].start
        &&& forall|i: int, a: int, b: int|
            0 <= i < self.len() && 0 <= a < b < self.nodes@[i].children@.len()
                ==> #[trigger] self.nodes@[i].children@[a] < #[trigger] self.nodes@[i].children@[b]
        &&& forall|i: int|
            0 <= i < self.len() && (#[trigger] self.nodes@[i]).parent is Some ==> {
                let p = self.nodes@[i].parent->Some_0 as int;
                &&& 0 <= p < i
                &&& self.nodes@[i].child_idx < self.nodes@[p].children@.len()
                &&& self.nodes@[p].children@[self.nodes@[i].child_idx as int] == i as usize
            }
    }

    /// The raw source bytes of node `i`.
    pub open spec fn spec_node_text(self, i: int) -> Seq<u8> {
        self.text@.subrange(self.nodes@[i].start as int, self.nodes@[i].end as int)
    }

    /// The trimmed source bytes of node `i`.
    pub open spec fn spec_trimmed(self, i: int) -> Seq<u8> {
        trim_bytes(self.spec_node_text(i))
    }

    /// The named children of node `i`, in order.
    pub open spec fn spec_named_children(self, i: int) -> Seq<usize> {
        self.nodes@[i].children@.filter(|c: usize| self.nodes@[c as int].named)
    }

    /// The byte range of node `i`.
    pub open spec fn spec_range(self, i: int) -> (usize, usize) {
        (self.nodes@[i].start, self.nodes@[i].end)
    }

    pub fn node_count(&self) -> (r: usize)
        ensures
            r == self.len(),
    {
        self.nodes.len()
    }

    pub fn child_count(&self, i: usize) -> (r: usize)
        requires
            self.wf(),
            i < self.len(),
        ensures
            r == self.nodes@[i as int].children@.len(),
    {
        self.nodes[i].children.len()
    }

    pub fn child(&self, i: usize, k: usize) -> (r: Option<usize>)
        requires
            self.wf(),
            i < self.len(),
        ensures
            match r {
                Some(c) => k < self.nodes@[i as int].children@.len() && c
                    == self.nodes@[i as int].children@[k as int] && i < c < self.len(),
                None => k >= self.nodes@[i as int].children@.len(),
            },
    {
        if k < self.nodes[i].children.len() {
            Some(self.nodes[i].children[k])
        } else {
            None
        }
    }

    pub fn kind_id(&self, i: usize) -> (r: u16)
        requires
            self.wf(),
            i < self.len(),
        ensures
            r == self.nodes@[i as int].kind_id,
    {
        self.nodes[i].kind_id
    }

    pub fn is_named(&self, i: usize) -> (r: bool)
        requires
            self.wf(),
            i < self.len(),
        ensures
            r == self.nodes@[i as int].named,
    {
        self.nodes[i].named
    }

    pub fn kind_bytes(&self, i: usize) -> (r: Vec<u8>)
        requires
            self.wf(),
            i < self.len(),
        ensures
            r@ == self.nodes@[i as int].kind@,
    {
        clone_bytes(&self.nodes[i].kind)
    }

    pub fn parent(&self, i: usize) -> (r: Option<usize>)
        requires
            self.wf(),
            i < self.len(),
        ensures
            r == self.nodes@[i as int].parent,
            r matches Some(p) ==> p < i,
    {
        self.nodes[i].parent
    }

    pub fn start_byte(&self, i: usize) -> (r: usize)
        requires
            self.wf(),
            i < self.len(),
        ensures
            r == self.nodes@[i as int].start,
    {
        self.nodes[i].start
    }

    pub fn end_byte(&self, i: usize) -> (r: usize)
        requires
            self.wf(),
            i < self.len(),
        ensures
            r == self.nodes@[i as int].end,
    {
        self.nodes[i].end
    }

    /// The next sibling of `i` under its parent, if any.
    pub fn next_sibling(&self, i: usize) -> (r: Option<usize>)
        requires
            self.wf(),
            i < self.len(),
        ensures
            r == self.spec_next_sibling(i as int),
            r matches Some(s) ==> i < s < self.len(),
    {
        match self.nodes[i].parent {
            None => None,
            Some(p) => {
                proof {
                    assert(self.nodes@[i as int].parent is Some);
                    assert(self.nodes@[i as int].child_idx < self.nodes@[p as int].children@.len());
                }
                let idx = self.nodes[i].child_idx;
                if idx < self.nodes[p].children.len() - 1 {
                    let s = self.nodes[p].children[idx + 1];
                    proof {
                        assert(self.nodes@[p as int].children@[idx as int] == i);
                    }
                    Some(s)
                } else {
                    None
                }
            },
        }
    }

    pub open spec fn spec_next_sibling(self, i: int) -> Option<usize> {
        match self.nodes@[i].parent {
            None => None,
            Some(p) => {
                let idx = self.nodes@[i].child_idx as int;
                if idx + 1 < self.nodes@[p as int].children@.len() {
                    Some(self.nodes@[p as int].children@[idx + 1])
                } else {
                    None
                }
            },
        }
    }

    pub open spec fn spec_prev_sibling(self, i: int) -> Option<usize> {
        match self.nodes@[i].parent {
            None => None,
            Some(p) => {
                let idx = self.nodes@[i].child_idx as int;
                if idx > 0 {
                    Some(self.nodes@[p as int].children@[idx - 1])
                } else {
                    None
                }
            },
        }
    }

    /// The previous sibling of `i` under its parent, if any.
    pub fn prev_sibling(&self, i: usize) -> (r: Option<usize>)
        requires
            self.wf(),
            i < self.len(),
        ensures
            r == self.spec_prev_sibling(i as int),
            r matches Some(s) ==> s < self.len(),
    {
        match self.nodes[i].parent {
            None => None,
            Some(p) => {
                let idx = self.nodes[i].child_idx;
                if idx > 0 {
                    Some(self.nodes[p].children[idx - 1])
                } else {
                    None
                }
            },
        }
    }

    /// The next named sibling of `i`, if any.
    pub fn next_named_sibling(&self, i: usize) -> (r: Option<usize>)
        requires
            self.wf(),
            i < self.len(),
        ensures
            r matches Some(s) ==> s < self.len() && self.nodes@[s as int].named,
    {
        match self.nodes[i].parent {
            None => None,
            Some(p) => {
                let n = self.nodes[p].children.len();
                let mut k = self.nodes[i].child_idx + 1;
                while k < n
                    invariant
                        self.wf(),
                        p < self.len(),
                        n == self.nodes@[p as int].children@.len(),
                    decreases n - k,
                {
                    let c = self.nodes[p].children[k];
                    if self.nodes[c].named {
                        return Some(c);
                    }
                    k = k + 1;
                }
                None
            },
        }
    }

    /// The previous named sibling of `i`, if any.
    pub fn prev_named_sibling(&self, i: usize) -> (r: Option<usize>)
        requires
            self.wf(),
            i < self.len(),
        ensures
            r matches Some(s) ==> s < self.len() && self.nodes@[s as int].named,
    {
        match self.nodes[i].parent {
            None => None,
            Some(p) => {
                let mut k = self.nodes[i].child_idx;
                while k > 0
                    invariant
                        self.wf(),
                        p < self.len(),
                        k <= self.nodes@[p as int].children@.len(),
                    decreases k,
                {
                    k = k - 1;
                    let c = self.nodes[p].children[k];
                    if self.nodes[c].named {
                        return Some(c);
                    }
                }
                None
            },
        }
    }

    /// How many named children node `i` has.
    pub fn named_child_count(&self, i: usize) -> (r: usize)
        requires
            self.wf(),
            i < self.len(),
        ensures
            r == self.spec_named_children(i as int).len(),
    {
        let n = self.nodes[i].children.len();
        let mut count: usize = 0;
        let ghost cs = self.nodes@[i as int].children@;
        for k in 0..n
            invariant
                self.wf(),
                i < self.len(),
                cs == self.nodes@[i as int].children@,
                n == cs.len(),
                count == cs.take(k as int).filter(|c: usize| self.nodes@[c as int].named).len(),
                count <= k,
        {
            proof {
                reveal_with_fuel(Seq::filter, 2);
                assert(cs.take(k + 1).drop_last() =~= cs.take(k as int));
                assert(cs.take(k + 1).last() == cs[k as int]);
            }
            if self.nodes[self.nodes[i].children[k]].named {
                count = count + 1;
            }
        }
        proof {
            assert(cs.take(n as int) =~= cs);
        }
        count
    }

    /// The `k`-th named child of node `i`, if any.
    pub fn named_child(&self, i: usize, k: usize) -> (r: Option<usize>)
        requires
            self.wf(),
            i < self.len(),
        ensures
            match r {
                Some(c) => k < self.spec_named_children(i as int).len() && c
                    == self.spec_named_children(i as int)[k as int] && i < c < self.len(),
                None => k >= self.spec_named_children(i as int).len(),
            },
    {
        let n = self.nodes[i].children.len();
        let mut count: usize = 0;
        let ghost cs = self.nodes@[i as int].children@;
        for j in 0..n
            invariant
                self.wf(),
                i < self.len(),
                cs == self.nodes@[i as int].children@,
                n == cs.len(),
                count == cs.take(j as int).filter(|c: usize| self.nodes@[c as int].named).len(),
                count <= k,
        {
            proof {
                reveal_with_fuel(Seq::filter, 2);
                assert(cs.take(j + 1).drop_last() =~= cs.take(j as int));
                assert(cs.take(j + 1).last() == cs[j as int]);
            }
            let c = self.nodes[i].children[j];
            if self.nodes[c].named {
                if count == k {
                    proof {
                        lemma_filter_take_index(cs, |x: usize| self.nodes@[x as int].named, j as int);
                    }
                    return Some(c);
                }
                count = count + 1;
            }
        }
        proof {
            assert(cs.take(n as int) =~= cs);
        }
        None
    }

    /// The raw source bytes of node `i`.
    pub fn node_text(&self, i: usize) -> (r: Vec<u8>)
        requires
            self.wf(),
            i < self.len(),
        ensures
            r@ == self.spec_node_text(i as int),
    {
        let start = self.nodes[i].start;
        let end = self.nodes[i].end;
        copy_range(&self.text, start, end)
    }

    /// The trimmed source bytes of node `i`.
    pub fn trimmed_text(&self, i: usize) -> (r: Vec<u8>)
        requires
            self.wf(),
            i < self.len(),
        ensures
            r@ == self.spec_trimmed(i as int),
    {
        let start = self.nodes[i].start;
        let end = self.nodes[i].end;
        trim_range(&self.text, start, end)
    }
}

/// ASCII whitespace, as `str::trim` treats it for ASCII text.
pub open spec fn is_ws(b: u8) -> bool {
    b == 32 || (9 <= b && b <= 13)
}

/// Drop leading whitespace.
pub open spec fn trim_front(s: Seq<u8>) -> Seq<u8>
    decreases s.len(),
{
    if s.len() > 0 && is_ws(s[0]) {
        trim_front(s.drop_first())
    } else {
        s
    }
}

/// Drop trailing whitespace.
pub open spec fn trim_back(s: Seq<u8>) -> Seq<u8>
    decreases s.len(),
{
    if s.len() > 0 && is_ws(s.last()) {
        trim_back(s.drop_last())
    } else {
        s
    }
}

/// Trim whitespace from both ends.
pub open spec fn trim_bytes(s: Seq<u8>) -> Seq<u8> {
    trim_back(trim_front(s))
}

/// Copy `text[start..end]` into a fresh vector.
pub fn copy_range(text: &Vec<u8>, start: usize, end: usize) -> (r: Vec<u8>)
    requires
        start <= end <= text@.len(),
    ensures
        r@ == text@.subrange(start as int, end as int),
{
    let mut out: Vec<u8> = Vec::new();
    let mut i = start;
    while i < end
        invariant
            start <= i <= end <= text@.len(),
            out@ =~= text@.subrange(start as int, i as int),
        decreases end - i,
    {
        out.push(text[i]);
        proof {
            assert(out@ =~= text@.subrange(start as int, i + 1));
        }
        i = i + 1;
    }
    out
}

/// Copy `text[start..end]` trimmed of surrounding ASCII whitespace.
pub fn trim_range(text: &Vec<u8>, start: usize, end: usize) -> (r: Vec<u8>)
    requires
        start <= end <= text@.len(),
    ensures
        r@ == trim_bytes(text@.subrange(start as int, end as int)),
{
    let ghost s = text@.subrange(start as int, end as int);
    let mut lo = start;
    while lo < end && is_ws_byte(text[lo])
        invariant
            start <= lo <= end <= text@.len(),
            s == text@.subrange(start as int, end as int),
            trim_front(s) == trim_front(text@.subrange(lo as int, end as int)),
        decreases end - lo,
    {
        proof {
            let cur = text@.subrange(lo as int, end as int);
            assert(cur[0] == text@[lo as int]);
            assert(cur.drop_first() =~= text@.subrange(lo + 1, end as int));
        }
        lo = lo + 1;
    }
    proof {
        let cur = text@.subrange(lo as int, end as int);
        if lo < end {
            assert(cur[0] == text@[lo as int]);
        }
        assert(trim_front(s) == cur);
    }
    let mut hi = end;
    while hi > lo && is_ws_byte(text[hi - 1])
        invariant
            start <= lo <= hi <= end <= text@.len(),
            trim_front(s) == text@.subrange(lo as int, end as int),
            trim_back(text@.subrange(lo as int, end as int)) == trim_back(
                text@.subrange(lo as int, hi as int),
            ),
        decreases hi,
    {
        proof {
            let cur = text@.subrange(lo as int, hi as int);
            assert(cur.last() == text@[hi - 1]);
            assert(cur.drop_last() =~= text@.subrange(lo as int, hi - 1));
        }
        hi = hi - 1;
    }
    proof {
        let cur = text@.subrange(lo as int, hi as int);
        if hi > lo {
            assert(cur.last() == text@[hi - 1]);
        }
        assert(trim_back(text@.subrange(lo as int, hi as int)) == cur);
    }
    copy_range(text, lo, hi)
}

/// ASCII whitespace test on a byte.
pub fn is_ws_byte(b: u8) -> (r: bool)
    ensures
        r == is_ws(b),
{
    b == 32 || (9 <= b && b <= 13)
}

/// Filtering a prefix that ends in a kept element indexes that element.
proof fn lemma_filter_take_index(s: Seq<usize>, pred: spec_fn(usize) -> bool, j: int)
    requires
        0 <= j < s.len(),
        pred(s[j]),
    ensures
        s.filter(pred).len() > s.take(j).filter(pred).len(),
        s.filter(pred)[s.take(j).filter(pred).len() as int] == s[j],
    decreases s.len(),
{
    reveal_with_fuel(Seq::filter, 2);
    if s.len() == 0 {
    } else if j == s.len() - 1 {
        assert(s.drop_last().filter(pred) == s.take(j).filter(pred)) by {
            assert(s.drop_last() =~= s.take(j));
        }
    } else {
        lemma_filter_take_index(s.drop_last(), pred, j);
        assert(s.drop_last().take(j) =~= s.take(j));
        if pred(s.last()) {
        }
    }
}

/// `a` lies on the parent chain of `n` (including `a == n`).
pub open spec fn in_chain(t: SynTree, a: int, n: int) -> bool
    decreases n when 0 <= n
{
    a == n || (match t.nodes@[n].parent {
        None => false,
        Some(p) => {
            if 0 <= p < n {
                in_chain(t, a, p as int)
            } else {
                false
            }
        },
    })
}

/// Distance from the root: the length of the parent chain.
pub open spec fn depth(t: SynTree, n: int) -> int
    decreases n when 0 <= n
{
    match t.nodes@[n].parent {
        None => 0,
        Some(p) => {
            if 0 <= p < n {
                1 + depth(t, p as int)
            } else {
                0
            }
        },
    }
}

/// An ancestor has a smaller arena index.
pub proof fn lemma_chain_le(t: SynTree, a: int, n: int)
    requires
        0 <= n,
        in_chain(t, a, n),
    ensures
        a <= n,
    decreases n,
{
    if a != n {
        match t.nodes@[n].parent {
            None => {},
            Some(p) => {
                if 0 <= p < n {
                    lemma_chain_le(t, a, p as int);
                }
            },
        }
    }
}

/// The parent chain is transitive.
pub proof fn lemma_chain_trans(t: SynTree, a: int, b: int, c: int)
    requires
        0 <= b,
        0 <= c,
        in_chain(t, a, b),
        in_chain(t, b, c),
    ensures
        in_chain(t, a, c),
    decreases c,
{
    if b != c {
        match t.nodes@[c].parent {
            None => {},
            Some(p) => {
                if 0 <= p < c {
                    lemma_chain_trans(t, a, b, p as int);
                }
            },
        }
    }
}

/// A strict ancestor on the chain owns a child still on the chain.
pub proof fn lemma_chain_step(t: SynTree, a: int, n: int)
    requires
        t.wf(),
        0 <= a < t.len(),
        0 <= n < t.len(),
        in_chain(t, a, n),
        a != n,
    ensures
        exists|k: int|
            0 <= k < t.nodes@[a].children@.len() && in_chain(
                t,
                t.nodes@[a].children@[k] as int,
                n,
            ),
    decreases n,
{
    match t.nodes@[n].parent {
        None => {
            assert(!in_chain(t, a, n));
        },
        Some(p) => {
            if 0 <= p < n {
                if a == p as int {
                    let k = t.nodes@[n].child_idx as int;
                    assert(t.nodes@[n].parent is Some);
                    assert(0 <= k < t.nodes@[a].children@.len());
                    assert(t.nodes@[a].children@[k] == n as usize);
                    assert(t.nodes@[a].children@[k] as int == n);
                    assert(in_chain(t, n, n));
                } else {
                    assert(in_chain(t, a, p as int));
                    assert(0 <= p < t.len());
                    lemma_chain_step(t, a, p as int);
                    let k = choose|k: int|
                        0 <= k < t.nodes@[a].children@.len() && in_chain(
                            t,
                            t.nodes@[a].children@[k] as int,
                            p as int,
                        );
                    assert(in_chain(t, t.nodes@[a].children@[k] as int, n));
                }
            } else {
                assert(!in_chain(t, a, n));
            }
        },
    }
}

/// A node's byte range nests inside every ancestor's.
pub proof fn lemma_chain_range(t: SynTree, a: int, n: int)
    requires
        t.wf(),
        0 <= a < t.len(),
        0 <= n < t.len(),
        in_chain(t, a, n),
    ensures
        t.nodes@[a].start <= t.nodes@[n].start,
        t.nodes@[n].end <= t.nodes@[a].end,
    decreases n,
{
    if a != n {
        match t.nodes@[n].parent {
            None => {},
            Some(p) => {
                if 0 <= p < n {
                    lemma_chain_range(t, a, p as int);
                    let idx = t.nodes@[n].child_idx as int;
                    assert(t.nodes@[p as int].children@[idx] == n as usize);
                }
            },
        }
    }
}

/// Two nodes neither of which is an ancestor of the other have disjoint
/// byte ranges, provided both hang under a common ancestor.
pub proof fn lemma_incomparable_disjoint(t: SynTree, a: int, x: int, y: int)
    requires
        t.wf(),
        0 <= a < t.len(),
        0 <= x < t.len(),
        0 <= y < t.len(),
        in_chain(t, a, x),
        in_chain(t, a, y),
        !in_chain(t, x, y),
        !in_chain(t, y, x),
    ensures
        t.nodes@[x].end <= t.nodes@[y].start || t.nodes@[y].end <= t.nodes@[x].start,
    decreases x + y - 2 * a,
{
    lemma_chain_le(t, a, x);
    lemma_chain_le(t, a, y);
    if a == x {
        assert(in_chain(t, x, y));
    } else if a == y {
        assert(in_chain(t, y, x));
    } else {
        lemma_chain_step(t, a, x);
        let kx = choose|k: int|
            0 <= k < t.nodes@[a].children@.len() && in_chain(
                t,
                t.nodes@[a].children@[k] as int,
                x,
            );
        lemma_chain_step(t, a, y);
        let ky = choose|k: int|
            0 <= k < t.nodes@[a].children@.len() && in_chain(
                t,
                t.nodes@[a].children@[k] as int,
                y,
            );
        let cx = t.nodes@[a].children@[kx] as int;
        let cy = t.nodes@[a].children@[ky] as int;
        if kx == ky {
            lemma_chain_le(t, cx, x);
            lemma_chain_le(t, cx, y);
            lemma_incomparable_disjoint(t, cx, x, y);
        } else {
            lemma_chain_range(t, cx, x);
            lemma_chain_range(t, cy, y);
            if kx < ky {
                assert(t.nodes@[cx].end <= t.nodes@[cy].start);
            } else {
                assert(t.nodes@[cy].end <= t.nodes@[cx].start);
            }
        }
    }
}

} // verus!
