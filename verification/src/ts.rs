//! The boundary to the grammar parser.
//!
//! The outside parser produces an opaque tree; small trusted accessors read
//! one node at a time, and a verified breadth-first walk transcribes the tree
//! into the crate's own arena representation, validating every byte range and
//! every link, so that well-formedness of the result is proved rather than
//! assumed.

use vstd::prelude::*;

use crate::env::clone_bytes;
use crate::tree::{NodeData, SynTree};

verus! {

#[verifier::external_type_specification]
#[verifier::external_body]
pub struct ExTsLanguage(tree_sitter::Language);

#[verifier::external_type_specification]
#[verifier::external_body]
pub struct ExTsParser(tree_sitter::Parser);

#[verifier::external_type_specification]
#[verifier::external_body]
pub struct ExTsTree(tree_sitter::Tree);

#[verifier::external_type_specification]
#[verifier::external_body]
pub struct ExTsNode<'a>(tree_sitter::Node<'a>);

/// Relies on tree_sitter::Language's derived Clone, which copies the plain
/// grammar handle.
pub assume_specification[ <tree_sitter::Language as core::clone::Clone>::clone ](
    l: &tree_sitter::Language,
) -> tree_sitter::Language;

/// Relies on tree_sitter::Parser::new to produce a fresh parser.
#[verifier::external_body]
pub(crate) fn ts_parser_new() -> tree_sitter::Parser {
    tree_sitter::Parser::new()
}

/// Relies on tree_sitter::Parser::set_language; reports whether the grammar
/// was accepted.
#[verifier::external_body]
pub(crate) fn ts_parser_set_language(p: &mut tree_sitter::Parser, lang: &tree_sitter::Language) -> (r:
    bool) {
    p.set_language(*lang).is_ok()
}

/// Relies on tree_sitter::Parser::parse over the full byte buffer.
#[verifier::external_body]
pub(crate) fn ts_parser_parse(p: &mut tree_sitter::Parser, text: &Vec<u8>) -> (r: Option<
    tree_sitter::Tree,
>) {
    p.parse(text.as_slice(), None)
}

/// Relies on tree_sitter::Tree::root_node.
#[verifier::external_body]
pub(crate) fn ts_tree_root<'t>(tree: &'t tree_sitter::Tree) -> (r: tree_sitter::Node<'t>) {
    tree.root_node()
}

/// Relies on tree_sitter::Node::child_count.
#[verifier::external_body]
pub(crate) fn ts_node_child_count(n: &tree_sitter::Node) -> (r: usize) {
    n.child_count()
}

/// Relies on tree_sitter::Node::child.
#[verifier::external_body]
pub(crate) fn ts_node_child<'t>(n: &tree_sitter::Node<'t>, i: usize) -> (r: Option<
    tree_sitter::Node<'t>,
>) {
    n.child(i)
}

/// Relies on tree_sitter::Node::kind_id.
#[verifier::external_body]
pub(crate) fn ts_node_kind_id(n: &tree_sitter::Node) -> (r: u16) {
    n.kind_id()
}

/// Relies on tree_sitter::Node::kind; the name is handed back as bytes.
#[verifier::external_body]
pub(crate) fn ts_node_kind(n: &tree_sitter::Node) -> (r: Vec<u8>) {
    n.kind().as_bytes().to_vec()
}

/// Relies on tree_sitter::Node::is_named.
#[verifier::external_body]
pub(crate) fn ts_node_is_named(n: &tree_sitter::Node) -> (r: bool) {
    n.is_named()
}

/// Relies on tree_sitter::Node::start_byte.
#[verifier::external_body]
pub(crate) fn ts_node_start(n: &tree_sitter::Node) -> (r: usize) {
    n.start_byte()
}

/// Relies on tree_sitter::Node::end_byte.
#[verifier::external_body]
pub(crate) fn ts_node_end(n: &tree_sitter::Node) -> (r: usize) {
    n.end_byte()
}

/// Relies on tree_sitter::Node::has_error.
#[verifier::external_body]
pub(crate) fn ts_node_has_error(n: &tree_sitter::Node) -> (r: bool) {
    n.has_error()
}

/// One transcribed node before its child list is known.
struct RawNode {
    kind_id: u16,
    kind: Vec<u8>,
    named: bool,
    start: usize,
    end: usize,
    parent: Option<usize>,
    child_idx: usize,
}

/// Read the fields of one outside node, clamping its byte range into the
/// buffer so that the recorded range is valid whatever the parser reported.
fn read_node(n: &tree_sitter::Node, text_len: usize, parent: Option<usize>, child_idx: usize) -> (r:
    RawNode)
    ensures
        r.start <= r.end <= text_len,
        r.parent == parent,
        r.child_idx == child_idx,
{
    let mut start = ts_node_start(n);
    let mut end = ts_node_end(n);
    if start > text_len {
        start = text_len;
    }
    if end > text_len {
        end = text_len;
    }
    if end < start {
        end = start;
    }
    RawNode {
        kind_id: ts_node_kind_id(n),
        kind: ts_node_kind(n),
        named: ts_node_is_named(n),
        start,
        end,
        parent,
        child_idx,
    }
}

/// Transcribe the tree under `root` into an arena, breadth first, checking
/// that every child's range nests inside its parent's after its previous
/// sibling.  Fails when the node count exceeds `cap` or a range does not
/// nest.
fn flatten<'t>(root: tree_sitter::Node<'t>, text: &Vec<u8>, cap: usize) -> (r: Option<SynTree>)
    ensures
        r matches Some(t) ==> t.wf() && t.text@ == text@,
{
    let text_len = text.len();
    let mut meta: Vec<RawNode> = Vec::new();
    let mut handles: Vec<tree_sitter::Node<'t>> = Vec::new();
    let mut kids: Vec<Vec<usize>> = Vec::new();
    meta.push(read_node(&root, text_len, None, 0));
    handles.push(root);
    let mut i: usize = 0;
    while i < meta.len()
        invariant
            i <= meta.len(),
            meta.len() <= cap || (i == 0 && meta.len() == 1),
            meta.len() >= 1,
            kids.len() == i,
            handles.len() == meta.len(),
            meta@[0].parent is None,
            forall|j: int|
                0 <= j < meta@.len() ==> (#[trigger] meta@[j]).start <= meta@[j].end <= text_len,
            forall|j: int|
                1 <= j < meta@.len() ==> ((#[trigger] meta@[j]).parent matches Some(p) && 0
                    <= p < i && (p as int) < j && meta@[j].child_idx < kids@[p as int]@.len()
                    && kids@[p as int]@[meta@[j].child_idx as int] == j),
            forall|j: int, k: int|
                0 <= j < kids@.len() && 0 <= k < kids@[j]@.len() ==> {
                    let c = #[trigger] kids@[j]@[k] as int;
                    &&& j < c < meta@.len()
                    &&& meta@[c].parent == Some(j as usize)
                    &&& meta@[c].child_idx == k
                    &&& meta@[j].start <= meta@[c].start
                    &&& meta@[c].end <= meta@[j].end
                },
            forall|j: int, a: int, b: int|
                0 <= j < kids@.len() && 0 <= a < b < kids@[j]@.len()
                    ==> #[trigger] kids@[j]@[a] < #[trigger] kids@[j]@[b] && meta@[kids@[j]@[a] as int].end
                    <= meta@[kids@[j]@[b] as int].start,
        decreases cap - i,
    {
        if meta.len() > cap {
            return None;
        }
        let n = ts_node_child_count(&handles[i]);
        let mut my_kids: Vec<usize> = Vec::new();
        let ghost base = meta@.len();
        let mut k: usize = 0;
        let mut last_end: usize = meta[i].start;
        while k < n
            invariant
                k == 0 ==> last_end == meta@[i as int].start,
                k > 0 ==> last_end as int == meta@[base + k - 1].end,
                meta@[i as int].start <= last_end <= meta@[i as int].end,
                forall|j: int|
                    base <= j < meta@.len() ==> meta@[i as int].start <= (#[trigger] meta@[
                        j
                    ]).start && meta@[j].end <= meta@[i as int].end,
                forall|a: int, b: int|
                    base <= a < b < meta@.len() ==> (#[trigger] meta@[a]).end <= (
                    #[trigger] meta@[b]).start,
                i < meta@.len(),
                kids.len() == i,
                handles.len() == meta.len(),
                meta@.len() == base + k,
                base <= cap,
                meta@.len() <= cap || k == 0,
                k <= n,
                my_kids@.len() == k,
                meta@[0].parent is None,
                i < base,
                forall|j: int| 0 <= j < k ==> my_kids@[j] == base + j,
                forall|j: int|
                    0 <= j < meta@.len() ==> (#[trigger] meta@[j]).start <= meta@[j].end
                        <= text_len,
                forall|j: int|
                    1 <= j < base ==> ((#[trigger] meta@[j]).parent matches Some(p) && 0 <= p
                        < i && (p as int) < j && meta@[j].child_idx < kids@[p as int]@.len()
                        && kids@[p as int]@[meta@[j].child_idx as int] == j),
                forall|j: int|
                    base <= j < meta@.len() ==> (#[trigger] meta@[j]).parent == Some(i)
                        && meta@[j].child_idx == j - base,
                forall|j: int, k2: int|
                    0 <= j < kids@.len() && 0 <= k2 < kids@[j]@.len() ==> {
                        let c = #[trigger] kids@[j]@[k2] as int;
                        &&& j < c < meta@.len()
                        &&& meta@[c].parent == Some(j as usize)
                        &&& meta@[c].child_idx == k2
                        &&& meta@[j].start <= meta@[c].start
                        &&& meta@[c].end <= meta@[j].end
                    },
                forall|j: int, a: int, b: int|
                    0 <= j < kids@.len() && 0 <= a < b < kids@[j]@.len()
                        ==> #[trigger] kids@[j]@[a] < #[trigger] kids@[j]@[b] && meta@[kids@[
                        j
                    ]@[a] as int].end <= meta@[kids@[j]@[b] as int].start,
            decreases n - k,
        {
            if meta.len() >= cap {
                return None;
            }
            match ts_node_child(&handles[i], k) {
                None => {
                    // The outside parser reported more children than it hands
                    // out; treat the transcription as failed.
                    return None;
                },
                Some(c) => {
                    let rn = read_node(&c, text_len, Some(i), k);
                    // A child's range must nest inside its parent's, after
                    // the previous sibling; anything else is rejected.
                    if rn.start < last_end || rn.end > meta[i].end {
                        return None;
                    }
                    last_end = rn.end;
                    let idx = meta.len();
                    my_kids.push(idx);
                    meta.push(rn);
                    handles.push(c);
                },
            }
            k = k + 1;
        }
        let ghost mkv = my_kids@;
        let ghost kids_pre = kids@;
        kids.push(my_kids);
        proof {
            assert(kids@.len() == kids_pre.len() + 1);
            assert(kids@.last()@ == mkv);
            assert forall|j: int, k2: int|
                0 <= j < kids@.len() && 0 <= k2 < kids@[j]@.len() implies {
                let c = #[trigger] kids@[j]@[k2] as int;
                &&& j < c < meta@.len()
                &&& meta@[c].parent == Some(j as usize)
                &&& meta@[c].child_idx == k2
                &&& meta@[j].start <= meta@[c].start
                &&& meta@[c].end <= meta@[j].end
            } by {
                if j < kids_pre.len() {
                    assert(kids@[j] == kids_pre[j]);
                } else {
                    assert(kids@[j]@ == mkv);
                    assert(mkv[k2] == base + k2);
                }
            }
            assert forall|j: int, a: int, b: int|
                0 <= j < kids@.len() && 0 <= a < b < kids@[j]@.len() implies #[trigger] kids@[
                j
            ]@[a] < #[trigger] kids@[j]@[b] && meta@[kids@[j]@[a] as int].end <= meta@[kids@[
                j
            ]@[b] as int].start by {
                if j < kids_pre.len() {
                    assert(kids@[j] == kids_pre[j]);
                } else {
                    assert(kids@[j]@ == mkv);
                    assert(mkv[a] == base + a);
                    assert(mkv[b] == base + b);
                }
            }
        }
        i = i + 1;
    }
    // Assemble the arena; children lists are moved in node order.
    let total = meta.len();
    let mut nodes: Vec<NodeData> = Vec::new();
    let ghost gm = meta@;
    let ghost gk = kids@;
    for j in 0..total
        invariant
            total == gm.len(),
            gm.len() == gk.len(),
            nodes@.len() == j,
            gm == meta@,
            gk == kids@,
            forall|x: int|
                0 <= x < j ==> {
                    let nd = #[trigger] nodes@[x];
                    &&& nd.kind_id == gm[x].kind_id
                    &&& nd.named == gm[x].named
                    &&& nd.start == gm[x].start
                    &&& nd.end == gm[x].end
                    &&& nd.parent == gm[x].parent
                    &&& nd.child_idx == gm[x].child_idx
                    &&& nd.children@ == gk[x]@
                },
    {
        let m = &meta[j];
        let mut cl: Vec<usize> = Vec::new();
        let cn = kids[j].len();
        for q in 0..cn
            invariant
                j < gk.len(),
                gk == kids@,
                cn == gk[j as int]@.len(),
                cl@ =~= gk[j as int]@.take(q as int),
        {
            cl.push(kids[j][q]);
            proof {
                assert(cl@ =~= gk[j as int]@.take(q + 1));
            }
        }
        proof {
            assert(gk[j as int]@.take(cn as int) =~= gk[j as int]@);
        }
        nodes.push(
            NodeData {
                kind_id: m.kind_id,
                kind: clone_bytes(&m.kind),
                named: m.named,
                start: m.start,
                end: m.end,
                parent: m.parent,
                child_idx: m.child_idx,
                children: cl,
            },
        );
    }
    let t = SynTree { nodes, text: clone_bytes(text) };
    proof {
        broadcast use vstd::std_specs::vec::axiom_spec_len;

        assert(t.wf());
    }
    Some(t)
}

/// Parse a byte buffer with the given grammar and transcribe the result.
/// Returns the arena and whether the parse reported an error; `None` when
/// the grammar is rejected, the parser gives no tree, the tree is too
/// large, or its byte ranges do not nest as a tree's must.
pub fn parse_tree(lang: &tree_sitter::Language, text: &Vec<u8>) -> (r: Option<(SynTree, bool)>)
    ensures
        r matches Some(p) ==> p.0.wf() && p.0.text@ == text@,
{
    let mut parser = ts_parser_new();
    if !ts_parser_set_language(&mut parser, lang) {
        return None;
    }
    let tree = match ts_parser_parse(&mut parser, text) {
        None => {
            return None;
        },
        Some(t) => t,
    };
    let root = ts_tree_root(&tree);
    let has_err = ts_node_has_error(&root);
    let cap = node_cap(text.len());
    match flatten(root, text, cap) {
        None => None,
        Some(t) => Some((t, has_err)),
    }
}

/// A generous bound on how many nodes a parse of `len` bytes may produce.
fn node_cap(len: usize) -> (r: usize) {
    if len >= usize::MAX / 16 {
        usize::MAX - 1
    } else {
        len * 8 + 4096
    }
}

} // verus!
