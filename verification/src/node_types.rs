//! The grammar's node-types schema: which kinds are direct subtypes of which.
//!
//! The schema arrives as a JSON document.  The document is read through the
//! outside JSON parser behind trusted accessors; the two adjacency maps are
//! then built, and queried, by verified code with exact contracts.

use vstd::prelude::*;
use vstd::string::StrSliceExecFns;
use vstd::string::StringSliceAdditionalSpecFns;

use crate::env::{bytes_eq, clone_bytes};

verus! {

#[verifier::external_type_specification]
#[verifier::external_body]
pub struct ExJsonValue(serde_json::Value);

#[verifier::external_type_specification]
#[verifier::external_body]
pub struct ExJsonError(serde_json::Error);

/// A model of a parsed JSON document: what the accessors below can observe
/// of an outside value.  Object keys are the field names; duplicate keys
/// collapse as the outside parser collapses them; string contents are the
/// text's bytes; numbers are not inspected here.
pub enum JsonV {
    Null,
    Bool(bool),
    Num,
    Str(Seq<u8>),
    Arr(Seq<JsonV>),
    Obj(Map<Seq<char>, JsonV>),
}

/// The contents of an outside JSON value, as the model above.
pub uninterp spec fn json_view(v: serde_json::Value) -> JsonV;

/// What parsing a document yields: a model value, or nothing when the text
/// is not JSON.  Parsing is deterministic in the text.
pub uninterp spec fn json_of(s: Seq<char>) -> Option<JsonV>;

/// Relies on serde_json::from_str::<Value>: parsing is deterministic in the
/// input text, and the parsed value's observable contents are a function of
/// that text.
#[verifier::external_body]
fn json_parse(s: &str) -> (r: Result<serde_json::Value, serde_json::Error>)
    ensures
        r is Ok <==> json_of(s@) is Some,
        r matches Ok(v) ==> json_view(v) == json_of(s@)->Some_0,
{
    serde_json::from_str(s)
}

/// Relies on serde_json::Value::as_array: the length of an array value, and
/// nothing for any other value.
#[verifier::external_body]
fn json_array_len(v: &serde_json::Value) -> (r: Option<usize>)
    ensures
        r is Some <==> json_view(*v) is Arr,
        r matches Some(n) ==> n as nat == json_view(*v)->Arr_0.len(),
{
    match v.as_array() {
        Some(a) => Some(a.len()),
        None => None,
    }
}

/// Relies on serde_json::Value::get with an index: the i-th element of an
/// array, in order.
#[verifier::external_body]
fn json_get_index<'a>(v: &'a serde_json::Value, i: usize) -> (r: Option<&'a serde_json::Value>)
    ensures
        match json_view(*v) {
            JsonV::Arr(a) => (r is Some <==> (i as nat) < a.len()) && (r matches Some(x)
                ==> json_view(*x) == a[i as int]),
            _ => r is None,
        },
{
    v.get(i)
}

/// Relies on serde_json::Value::get with a field name: the named member of
/// an object.
#[verifier::external_body]
fn json_get_field<'a>(v: &'a serde_json::Value, name: &str) -> (r: Option<
    &'a serde_json::Value,
>)
    ensures
        match json_view(*v) {
            JsonV::Obj(o) => (r is Some <==> o.contains_key(name@)) && (r matches Some(x)
                ==> json_view(*x) == o[name@]),
            _ => r is None,
        },
{
    v.get(name)
}

/// Relies on serde_json::Value::as_str; the text is handed back as bytes.
#[verifier::external_body]
fn json_as_str_bytes(v: &serde_json::Value) -> (r: Option<Vec<u8>>)
    ensures
        r is Some <==> json_view(*v) is Str,
        r matches Some(b) ==> b@ == json_view(*v)->Str_0,
{
    match v.as_str() {
        Some(s) => Some(s.as_bytes().to_vec()),
        None => None,
    }
}

/// Relies on serde_json::Value::as_bool.
#[verifier::external_body]
fn json_as_bool(v: &serde_json::Value) -> (r: Option<bool>)
    ensures
        r is Some <==> json_view(*v) is Bool,
        r matches Some(b) ==> b == json_view(*v)->Bool_0,
{
    v.as_bool()
}

/// One schema record of the model: kind name and subtype kind names.
pub type RecordV = (Seq<u8>, Seq<Seq<u8>>);

/// A subtype entry: an object carrying a string `type` and a boolean
/// `named`.
pub open spec fn spec_subtype(j: JsonV) -> Option<(Seq<u8>, bool)> {
    match j {
        JsonV::Obj(o) => {
            if o.contains_key("type"@) && o["type"@] is Str && o.contains_key("named"@)
                && o["named"@] is Bool {
                Some((o["type"@]->Str_0, o["named"@]->Bool_0))
            } else {
                None
            }
        },
        _ => None,
    }
}

/// The subtype kind names of the first `k` entries, or nothing when one of
/// them is malformed.
pub open spec fn spec_subs_pre(items: Seq<JsonV>, k: int) -> Option<Seq<Seq<u8>>>
    decreases k,
{
    if k <= 0 {
        Some(Seq::empty())
    } else {
        match spec_subs_pre(items, k - 1) {
            None => None,
            Some(prev) => match spec_subtype(items[k - 1]) {
                None => None,
                Some(st) => Some(prev.push(st.0)),
            },
        }
    }
}

/// One schema record: an object with a string `type`, a boolean `named`,
/// and an optional array of well-formed `subtypes`.
pub open spec fn spec_record(j: JsonV) -> Option<RecordV> {
    match j {
        JsonV::Obj(o) => {
            if o.contains_key("type"@) && o["type"@] is Str && o.contains_key("named"@)
                && o["named"@] is Bool {
                if o.contains_key("subtypes"@) {
                    match o["subtypes"@] {
                        JsonV::Arr(items) => match spec_subs_pre(items, items.len() as int) {
                            None => None,
                            Some(ss) => Some((o["type"@]->Str_0, ss)),
                        },
                        _ => None,
                    }
                } else {
                    Some((o["type"@]->Str_0, Seq::empty()))
                }
            } else {
                None
            }
        },
        _ => None,
    }
}

/// The records of the first `k` document entries, or nothing when one is
/// malformed.
pub open spec fn spec_records_pre(arr: Seq<JsonV>, k: int) -> Option<Seq<RecordV>>
    decreases k,
{
    if k <= 0 {
        Some(Seq::empty())
    } else {
        match spec_records_pre(arr, k - 1) {
            None => None,
            Some(prev) => match spec_record(arr[k - 1]) {
                None => None,
                Some(rec) => Some(prev.push(rec)),
            },
        }
    }
}

/// The record list of a whole document: an array of well-formed records.
pub open spec fn spec_schema_of(j: JsonV) -> Option<Seq<RecordV>> {
    match j {
        JsonV::Arr(a) => spec_records_pre(a, a.len() as int),
        _ => None,
    }
}

/// A well-formed record prefix has one record per entry.
proof fn lemma_records_pre_len(arr: Seq<JsonV>, k: int)
    requires
        0 <= k,
        spec_records_pre(arr, k) is Some,
    ensures
        spec_records_pre(arr, k)->Some_0.len() == k,
    decreases k,
{
    if k > 0 {
        lemma_records_pre_len(arr, k - 1);
    }
}

/// A well-formed subtype prefix has one name per entry.
proof fn lemma_subs_pre_len(items: Seq<JsonV>, k: int)
    requires
        0 <= k,
        spec_subs_pre(items, k) is Some,
    ensures
        spec_subs_pre(items, k)->Some_0.len() == k,
    decreases k,
{
    if k > 0 {
        lemma_subs_pre_len(items, k - 1);
    }
}

/// A record at `i` is malformed, so the whole document is.
proof fn shape_fail(items: Seq<JsonV>, i: int, n: int)
    requires
        0 <= i < n,
        spec_records_pre(items, i) is Some,
        spec_record(items[i]) is None,
    ensures
        spec_records_pre(items, n) is None,
{
    assert(spec_records_pre(items, i + 1) is None);
    lemma_records_none_up(items, i + 1, n);
}

/// A subtype at `q` of the record at `i` is malformed, so the record and the
/// whole document are.
proof fn sub_shape_fail(items: Seq<JsonV>, i: int, n: int, sitems: Seq<JsonV>, q: int)
    requires
        0 <= i < n,
        0 <= q,
        q < sitems.len(),
        spec_records_pre(items, i) is Some,
        spec_subs_pre(sitems, q) is Some,
        spec_subtype(sitems[q]) is None,
        items[i] matches JsonV::Obj(o) && o.contains_key("subtypes"@) && o["subtypes"@]
            == JsonV::Arr(sitems),
    ensures
        spec_records_pre(items, n) is None,
{
    assert(spec_subs_pre(sitems, q + 1) is None);
    lemma_subs_none_up(sitems, q + 1, sitems.len() as int);
    assert(spec_record(items[i]) is None);
    assert(spec_records_pre(items, i + 1) is None);
    lemma_records_none_up(items, i + 1, n);
}

/// A malformed prefix stays malformed.
proof fn lemma_records_none_up(arr: Seq<JsonV>, q: int, n: int)
    requires
        0 <= q <= n,
        spec_records_pre(arr, q) is None,
    ensures
        spec_records_pre(arr, n) is None,
    decreases n - q,
{
    if q < n {
        lemma_records_none_up(arr, q + 1, n);
    }
}

/// A malformed subtype prefix stays malformed.
proof fn lemma_subs_none_up(items: Seq<JsonV>, q: int, n: int)
    requires
        0 <= q <= n,
        spec_subs_pre(items, q) is None,
    ensures
        spec_subs_pre(items, n) is None,
    decreases n - q,
{
    if q < n {
        lemma_subs_none_up(items, q + 1, n);
    }
}

/// One record of the node-types document.
#[derive(Clone, Debug)]
pub struct SchemaNode {
    /// Kind name.
    pub ty: Vec<u8>,
    /// Whether the kind is named.
    pub named: bool,
    /// Direct subtypes, for supertype kinds.
    pub subtypes: Vec<Subtype>,
}

/// A reference to a kind inside a record.
#[derive(Clone, Debug)]
pub struct Subtype {
    pub ty: Vec<u8>,
    pub named: bool,
}

/// Why a schema could not be read.
pub enum SchemaError {
    /// The document is not JSON.
    Json(serde_json::Error),
    /// The document is JSON but not an array of records with the required
    /// `type` and `named` fields.
    Shape,
}

/// An association list from a kind name to a list of kind names.
pub type KindMap = Seq<(Seq<u8>, Seq<Seq<u8>>)>;

/// Index of `key` in the association list, if present.
pub open spec fn km_find(m: KindMap, key: Seq<u8>) -> Option<int>
    decreases m.len(),
{
    if m.len() == 0 {
        None
    } else if m[0].0 == key {
        Some(0int)
    } else {
        match km_find(m.drop_first(), key) {
            None => None,
            Some(i) => Some(i + 1),
        }
    }
}

/// Whether `key` maps to a list containing `val`.
pub open spec fn km_mem(m: KindMap, key: Seq<u8>, val: Seq<u8>) -> bool {
    match km_find(m, key) {
        None => false,
        Some(i) => m[i].1.contains(val),
    }
}

/// Replace the list of `key`, or append the entry.
pub open spec fn km_put(m: KindMap, key: Seq<u8>, vals: Seq<Seq<u8>>) -> KindMap {
    match km_find(m, key) {
        None => m.push((key, vals)),
        Some(i) => m.update(i, (key, vals)),
    }
}

/// Add `val` to the list of `key`, appending a fresh entry for a new key and
/// skipping values already present.
pub open spec fn km_add(m: KindMap, key: Seq<u8>, val: Seq<u8>) -> KindMap {
    match km_find(m, key) {
        None => m.push((key, seq![val])),
        Some(i) => {
            if m[i].1.contains(val) {
                m
            } else {
                m.update(i, (key, m[i].1.push(val)))
            }
        },
    }
}

/// The view of one record: its kind and its subtypes' kinds.
pub open spec fn node_view(n: SchemaNode) -> (Seq<u8>, Seq<Seq<u8>>) {
    (n.ty@, n.subtypes@.map(|i: int, s: Subtype| s.ty@))
}

/// The kind-to-subkinds map after folding `nodes` in order; a repeated kind
/// keeps its last record.
pub open spec fn build_children(nodes: Seq<SchemaNode>) -> KindMap
    decreases nodes.len(),
{
    if nodes.len() == 0 {
        Seq::empty()
    } else {
        km_put(build_children(nodes.drop_last()), node_view(nodes.last()).0, node_view(
            nodes.last(),
        ).1)
    }
}

/// The kind-to-superkinds map after folding `nodes` in order.
pub open spec fn build_parents(nodes: Seq<SchemaNode>) -> KindMap
    decreases nodes.len(),
{
    if nodes.len() == 0 {
        Seq::empty()
    } else {
        build_parents_one(build_parents(nodes.drop_last()), node_view(nodes.last()).0, node_view(
            nodes.last(),
        ).1)
    }
}

/// Record `parent` as a superkind of every kind of `subs`, in order.
pub open spec fn build_parents_one(m: KindMap, parent: Seq<u8>, subs: Seq<Seq<u8>>) -> KindMap
    decreases subs.len(),
{
    if subs.len() == 0 {
        m
    } else {
        build_parents_one(km_add(m, subs[0], parent), parent, subs.drop_first())
    }
}

/// The two adjacency maps of a node-types schema.
#[derive(Clone, Debug)]
pub struct NodeTypes {
    pub children: Vec<(Vec<u8>, Vec<Vec<u8>>)>,
    pub parents: Vec<(Vec<u8>, Vec<Vec<u8>>)>,
}

/// View of an adjacency vector as an association list.
pub open spec fn km_view(v: Seq<(Vec<u8>, Vec<Vec<u8>>)>) -> KindMap {
    v.map(
        |i: int, kv: (Vec<u8>, Vec<Vec<u8>>)|
            (kv.0@, kv.1@.map(|j: int, x: Vec<u8>| x@)),
    )
}

/// Direct or transitive reachability from `ansc` down the children map,
/// following at most `fuel` edges of supertype chains.
pub open spec fn spec_descendant(m: KindMap, desc: Seq<u8>, ansc: Seq<u8>, fuel: nat) -> bool
    decreases fuel,
{
    ||| ansc == desc
    ||| (fuel > 0 && match km_find(m, ansc) {
        None => false,
        Some(i) => m[i].1.contains(desc) || (exists|k: int|
            0 <= k < m[i].1.len() && spec_descendant(m, desc, m[i].1[k], (fuel - 1) as nat)),
    })
}

/// The kind-to-subkinds map of a record list.
pub open spec fn build_children_v(recs: Seq<RecordV>) -> KindMap
    decreases recs.len(),
{
    if recs.len() == 0 {
        Seq::empty()
    } else {
        km_put(build_children_v(recs.drop_last()), recs.last().0, recs.last().1)
    }
}

/// The kind-to-superkinds map of a record list.
pub open spec fn build_parents_v(recs: Seq<RecordV>) -> KindMap
    decreases recs.len(),
{
    if recs.len() == 0 {
        Seq::empty()
    } else {
        build_parents_one(build_parents_v(recs.drop_last()), recs.last().0, recs.last().1)
    }
}

/// Folding schema records equals folding their views.
proof fn lemma_build_views(nodes: Seq<SchemaNode>, recs: Seq<RecordV>)
    requires
        recs.len() == nodes.len(),
        forall|i: int| 0 <= i < nodes.len() ==> recs[i] == node_view(#[trigger] nodes[i]),
    ensures
        build_children(nodes) == build_children_v(recs),
        build_parents(nodes) == build_parents_v(recs),
    decreases nodes.len(),
{
    if nodes.len() > 0 {
        assert forall|i: int|
            0 <= i < nodes.drop_last().len() implies recs.drop_last()[i] == node_view(
            #[trigger] nodes.drop_last()[i],
        ) by {
            assert(nodes.drop_last()[i] == nodes[i]);
            assert(recs.drop_last()[i] == recs[i]);
        }
        lemma_build_views(nodes.drop_last(), recs.drop_last());
        assert(recs.last() == node_view(nodes.last()));
    }
}

impl NodeTypes {
    pub open spec fn children_map(self) -> KindMap {
        km_view(self.children@)
    }

    pub open spec fn parents_map(self) -> KindMap {
        km_view(self.parents@)
    }

    /// Read a schema document: parse the JSON outside, then extract and
    /// validate the records and build the maps in verified code.  The first
    /// error-free reading wins: a non-JSON document is the `Json` error, a
    /// JSON document that is not an array of records with a string `type`,
    /// a boolean `named` and optional well-formed `subtypes` is the `Shape`
    /// error, and on success the maps are exactly the folds of the
    /// document's records.
    pub fn new(node_types_json_str: &str) -> (r: Result<NodeTypes, SchemaError>)
        ensures
            r matches Err(e) ==> (e is Json <==> json_of(node_types_json_str@) is None),
            r is Ok <==> (json_of(node_types_json_str@) matches Some(j) && spec_schema_of(
                j,
            ) is Some),
            r matches Ok(nt) ==> {
                let recs = spec_schema_of(json_of(node_types_json_str@)->Some_0)->Some_0;
                &&& nt.children_map() == build_children_v(recs)
                &&& nt.parents_map() == build_parents_v(recs)
            },
    {
        let doc = match json_parse(node_types_json_str) {
            Ok(v) => v,
            Err(e) => {
                return Err(SchemaError::Json(e));
            },
        };
        let ghost j = json_view(doc);
        let n = match json_array_len(&doc) {
            Some(n) => n,
            None => {
                return Err(SchemaError::Shape);
            },
        };
        let ghost items = j->Arr_0;
        let mut nodes: Vec<SchemaNode> = Vec::new();
        for i in 0..n
            invariant
                json_of(node_types_json_str@) == Some(j),
                json_view(doc) == j,
                j is Arr,
                items == j->Arr_0,
                n as nat == items.len(),
                spec_records_pre(items, i as int) is Some,
                nodes@.len() == i,
                forall|q: int|
                    0 <= q < i ==> node_view(#[trigger] nodes@[q]) == spec_records_pre(
                        items,
                        i as int,
                    )->Some_0[q],
        {
            let ghost pre_recs = spec_records_pre(items, i as int)->Some_0;
            proof {
                assert(pre_recs.len() == i) by {
                    lemma_records_pre_len(items, i as int);
                }
            }
            let rec = match json_get_index(&doc, i) {
                Some(r) => r,
                None => {
                    return Err(SchemaError::Shape);
                },
            };
            let ghost rv = items[i as int];
            let ty = match json_get_field(rec, "type") {
                Some(v) => match json_as_str_bytes(v) {
                    Some(b) => b,
                    None => {
                        proof {
                            shape_fail(items, i as int, n as int);
                        }
                        return Err(SchemaError::Shape);
                    },
                },
                None => {
                    proof {
                        shape_fail(items, i as int, n as int);
                    }
                    return Err(SchemaError::Shape);
                },
            };
            let named = match json_get_field(rec, "named") {
                Some(v) => match json_as_bool(v) {
                    Some(b) => b,
                    None => {
                        proof {
                            shape_fail(items, i as int, n as int);
                        }
                        return Err(SchemaError::Shape);
                    },
                },
                None => {
                    proof {
                        shape_fail(items, i as int, n as int);
                    }
                    return Err(SchemaError::Shape);
                },
            };
            let mut subtypes: Vec<Subtype> = Vec::new();
            match json_get_field(rec, "subtypes") {
                None => {},
                Some(subs) => {
                    let m = match json_array_len(subs) {
                        Some(m) => m,
                        None => {
                            proof {
                                shape_fail(items, i as int, n as int);
                            }
                            return Err(SchemaError::Shape);
                        },
                    };
                    let ghost sitems = json_view(*subs)->Arr_0;
                    for q in 0..m
                        invariant
                            json_of(node_types_json_str@) == Some(j),
                            json_view(doc) == j,
                            j is Arr,
                            items == j->Arr_0,
                            n as nat == items.len(),
                            i < n,
                            rv == items[i as int],
                            json_view(*rec) == rv,
                            rv is Obj,
                            rv->Obj_0.contains_key("subtypes"@),
                            rv->Obj_0["subtypes"@] == json_view(*subs),
                            json_view(*subs) is Arr,
                            sitems == json_view(*subs)->Arr_0,
                            m as nat == sitems.len(),
                            spec_records_pre(items, i as int) is Some,
                            spec_subs_pre(sitems, q as int) is Some,
                            subtypes@.len() == q,
                            forall|x: int|
                                0 <= x < q ==> (#[trigger] subtypes@[x]).ty@ == spec_subs_pre(
                                    sitems,
                                    q as int,
                                )->Some_0[x],
                    {
                        proof {
                            lemma_subs_pre_len(sitems, q as int);
                        }
                        let sv = match json_get_index(subs, q) {
                            Some(s) => s,
                            None => {
                                return Err(SchemaError::Shape);
                            },
                        };
                        let sty = match json_get_field(sv, "type") {
                            Some(v) => match json_as_str_bytes(v) {
                                Some(b) => b,
                                None => {
                                    proof {
                                        sub_shape_fail(items, i as int, n as int, sitems,
                                            q as int);
                                    }
                                    return Err(SchemaError::Shape);
                                },
                            },
                            None => {
                                proof {
                                    sub_shape_fail(items, i as int, n as int, sitems, q as int);
                                }
                                return Err(SchemaError::Shape);
                            },
                        };
                        let snamed = match json_get_field(sv, "named") {
                            Some(v) => match json_as_bool(v) {
                                Some(b) => b,
                                None => {
                                    proof {
                                        sub_shape_fail(items, i as int, n as int, sitems,
                                            q as int);
                                    }
                                    return Err(SchemaError::Shape);
                                },
                            },
                            None => {
                                proof {
                                    sub_shape_fail(items, i as int, n as int, sitems, q as int);
                                }
                                return Err(SchemaError::Shape);
                            },
                        };
                        subtypes.push(Subtype { ty: sty, named: snamed });
                        proof {
                            assert(spec_subtype(sitems[q as int]) matches Some(st) && st.0
                                == subtypes@.last().ty@);
                            lemma_subs_pre_len(sitems, q as int);
                            assert forall|x: int|
                                0 <= x < q + 1 implies (#[trigger] subtypes@[x]).ty@
                                == spec_subs_pre(sitems, q + 1)->Some_0[x] by {
                                if x < q {
                                    assert(subtypes@[x] == subtypes@.subrange(
                                        0,
                                        q as int,
                                    )[x]);
                                }
                            }
                        }
                    }
                    proof {
                        assert(spec_subs_pre(sitems, m as int) is Some);
                    }
                },
            }
            let ghost this_rec = spec_record(rv);
            proof {
                assert(this_rec matches Some(rec0) && rec0.0 == ty@ && rec0.1.len()
                    == subtypes@.len() && forall|x: int|
                    0 <= x < subtypes@.len() ==> rec0.1[x] == (#[trigger] subtypes@[x]).ty@) by {
                    match rv {
                        JsonV::Obj(o) => {
                            if o.contains_key("subtypes"@) {
                                match o["subtypes"@] {
                                    JsonV::Arr(si) => {
                                        lemma_subs_pre_len(si, si.len() as int);
                                    },
                                    _ => {},
                                }
                            }
                        },
                        _ => {},
                    }
                }
            }
            nodes.push(SchemaNode { ty, named, subtypes });
            proof {
                lemma_records_pre_len(items, i as int);
                assert(node_view(nodes@.last()).1 =~= this_rec->Some_0.1);
                assert(node_view(nodes@.last()) == this_rec->Some_0);
                assert(spec_records_pre(items, i + 1) matches Some(recs1) && recs1
                    == pre_recs.push(this_rec->Some_0));
                assert forall|q: int|
                    0 <= q < i + 1 implies node_view(#[trigger] nodes@[q]) == spec_records_pre(
                    items,
                    i + 1,
                )->Some_0[q] by {
                    if q < i {
                        assert(nodes@[q] == nodes@.subrange(0, i as int)[q]);
                    }
                }
            }
        }
        let nt = Self::from_nodes(&nodes);
        proof {
            lemma_records_pre_len(items, n as int);
            let recs = spec_records_pre(items, n as int)->Some_0;
            lemma_build_views(nodes@, recs);
        }
        Ok(nt)
    }

    /// Build the adjacency maps from a list of schema records.
    pub fn from_nodes(nodes: &Vec<SchemaNode>) -> (r: NodeTypes)
        ensures
            r.children_map() == build_children(nodes@),
            r.parents_map() == build_parents(nodes@),
    {
        let mut children: Vec<(Vec<u8>, Vec<Vec<u8>>)> = Vec::new();
        let mut parents: Vec<(Vec<u8>, Vec<Vec<u8>>)> = Vec::new();
        let n = nodes.len();
        for i in 0..n
            invariant
                n == nodes@.len(),
                km_view(children@) == build_children(nodes@.take(i as int)),
                km_view(parents@) == build_parents(nodes@.take(i as int)),
        {
            proof {
                assert(nodes@.take(i + 1).drop_last() =~= nodes@.take(i as int));
                assert(nodes@.take(i + 1).last() == nodes@[i as int]);
            }
            let nd = &nodes[i];
            let mut subs: Vec<Vec<u8>> = Vec::new();
            let m = nd.subtypes.len();
            let ghost pre = km_view(parents@);
            for j in 0..m
                invariant
                    n == nodes@.len(),
                    i < n,
                    m == nodes@[i as int].subtypes@.len(),
                    nd == &nodes[i as int],
                    subs@.map(|q: int, x: Vec<u8>| x@) =~= node_view(nodes@[i as int]).1.take(
                        j as int,
                    ),
                    km_view(parents@) == build_parents_one(
                        pre,
                        node_view(nodes@[i as int]).0,
                        node_view(nodes@[i as int]).1.take(j as int),
                    ),
            {
                proof {
                    lemma_bpo_snoc(pre, node_view(nodes@[i as int]).0, node_view(
                        nodes@[i as int],
                    ).1, j as int);
                }
                let sty = clone_bytes(&nd.subtypes[j].ty);
                km_add_exec(&mut parents, &sty, &nd.ty);
                subs.push(sty);
                proof {
                    assert(subs@.map(|q: int, x: Vec<u8>| x@) =~= node_view(
                        nodes@[i as int],
                    ).1.take(j + 1));
                }
            }
            proof {
                assert(node_view(nodes@[i as int]).1.take(m as int) =~= node_view(
                    nodes@[i as int],
                ).1);
            }
            km_put_exec(&mut children, &nd.ty, subs);
        }
        proof {
            assert(nodes@.take(n as int) =~= nodes@);
        }
        NodeTypes { children, parents }
    }

    /// Whether `child` is a direct subtype of `parent`.
    pub fn is_child_of(&self, child: &str, parent: &str) -> (r: bool)
        ensures
            r == km_mem(self.children_map(), parent.spec_bytes(), child.spec_bytes()),
    {
        km_mem_exec(&self.children, &parent.as_bytes_vec(), &child.as_bytes_vec())
    }

    /// Whether `parent` is recorded as a direct supertype of `child`.
    pub fn is_parent_of(&self, parent: &str, child: &str) -> (r: bool)
        ensures
            r == km_mem(self.parents_map(), child.spec_bytes(), parent.spec_bytes()),
    {
        km_mem_exec(&self.parents, &child.as_bytes_vec(), &parent.as_bytes_vec())
    }

    /// Whether `desc` can be reached from `ansc` by following subtype edges;
    /// chains longer than the number of recorded kinds are cut off, which
    /// only matters for a cyclic schema.
    pub fn is_descendant_of(&self, desc: &str, ansc: &str) -> (r: bool)
        ensures
            r == spec_descendant(
                self.children_map(),
                desc.spec_bytes(),
                ansc.spec_bytes(),
                self.children@.len() as nat,
            ),
    {
        let fuel = self.children.len();
        self.desc_rec(&desc.as_bytes_vec(), &ansc.as_bytes_vec(), fuel)
    }

    /// Whether `ansc` reaches `desc` by following subtype edges: the
    /// converse of the descendant query.
    pub fn is_ancestor_of(&self, ansc: &str, desc: &str) -> (r: bool)
        ensures
            r == spec_descendant(
                self.children_map(),
                desc.spec_bytes(),
                ansc.spec_bytes(),
                self.children@.len() as nat,
            ),
    {
        let fuel = self.children.len();
        self.desc_rec(&desc.as_bytes_vec(), &ansc.as_bytes_vec(), fuel)
    }

    /// Recursive reachability check with explicit fuel.
    fn desc_rec(&self, desc: &Vec<u8>, ansc: &Vec<u8>, fuel: usize) -> (r: bool)
        ensures
            r == spec_descendant(self.children_map(), desc@, ansc@, fuel as nat),
        decreases fuel,
    {
        if bytes_eq(ansc, desc) {
            return true;
        }
        if fuel == 0 {
            return false;
        }
        match km_get_exec(&self.children, ansc) {
            None => false,
            Some(cs) => {
                let n = cs.len();
                let ghost csv = cs@.map(|q: int, x: Vec<u8>| x@);
                let ghost i = km_find(self.children_map(), ansc@)->Some_0;
                proof {
                    lemma_km_find_bounds(self.children_map(), ansc@);
                }
                for k in 0..n
                    invariant
                        n == cs@.len(),
                        csv == cs@.map(|q: int, x: Vec<u8>| x@),
                        km_find(self.children_map(), ansc@) == Some(i),
                        0 <= i < self.children_map().len(),
                        self.children_map()[i].1 == csv,
                        fuel >= 1,
                        forall|q: int|
                            0 <= q < k ==> csv[q] != desc@ && !spec_descendant(
                                self.children_map(),
                                desc@,
                                csv[q],
                                (fuel - 1) as nat,
                            ),
                {
                    if bytes_eq(&cs[k], desc) {
                        proof {
                            assert(csv[k as int] == desc@);
                            assert(self.children_map()[i].1.contains(desc@));
                        }
                        return true;
                    }
                    if self.desc_rec(desc, &cs[k], fuel - 1) {
                        proof {
                            assert(csv[k as int] == cs@[k as int]@);
                        }
                        return true;
                    }
                    proof {
                        assert(csv[k as int] == cs@[k as int]@);
                    }
                }
                proof {
                    if self.children_map()[i].1.contains(desc@) {
                        let w = choose|w: int| 0 <= w < csv.len() && csv[w] == desc@;
                        assert(false);
                    }
                    if exists|k: int|
                        0 <= k < self.children_map()[i].1.len() && spec_descendant(
                            self.children_map(),
                            desc@,
                            self.children_map()[i].1[k],
                            (fuel - 1) as nat,
                        ) {
                        let w = choose|w: int|
                            0 <= w < csv.len() && spec_descendant(
                                self.children_map(),
                                desc@,
                                csv[w],
                                (fuel - 1) as nat,
                            );
                        assert(false);
                    }
                }
                false
            },
        }
    }
}

/// Look up `key`'s list.
fn km_get_exec<'a>(m: &'a Vec<(Vec<u8>, Vec<Vec<u8>>)>, key: &Vec<u8>) -> (r: Option<
    &'a Vec<Vec<u8>>,
>)
    ensures
        match r {
            Some(v) => km_find(km_view(m@), key@) matches Some(i) && km_view(m@)[i].1 == v@.map(
                |q: int, x: Vec<u8>| x@,
            ),
            None => km_find(km_view(m@), key@) is None,
        },
{
    let n = m.len();
    for i in 0..n
        invariant
            n == m.len(),
            km_find(km_view(m@).take(i as int), key@) is None,
    {
        proof {
            lemma_km_find_extend(km_view(m@), key@, i as int);
        }
        if bytes_eq(&m[i].0, key) {
            proof {
                lemma_km_find_prefix(km_view(m@), key@, i as int);
            }
            return Some(&m[i].1);
        }
    }
    proof {
        assert(km_view(m@).take(n as int) =~= km_view(m@));
    }
    None
}

/// Whether `key`'s list holds `val`.
fn km_mem_exec(m: &Vec<(Vec<u8>, Vec<Vec<u8>>)>, key: &Vec<u8>, val: &Vec<u8>) -> (r: bool)
    ensures
        r == km_mem(km_view(m@), key@, val@),
{
    match km_get_exec(m, key) {
        None => false,
        Some(vs) => {
            let n = vs.len();
            let ghost vv = vs@.map(|q: int, x: Vec<u8>| x@);
            let ghost idx = km_find(km_view(m@), key@)->Some_0;
            for i in 0..n
                invariant
                    n == vs@.len(),
                    vv == vs@.map(|q: int, x: Vec<u8>| x@),
                    km_find(km_view(m@), key@) == Some(idx),
                    km_view(m@)[idx].1 == vv,
                    forall|q: int| 0 <= q < i ==> vv[q] != val@,
            {
                if bytes_eq(&vs[i], val) {
                    proof {
                        assert(vv[i as int] == vs@[i as int]@);
                        assert(vv.contains(val@));
                    }
                    return true;
                }
                proof {
                    assert(vv[i as int] == vs@[i as int]@);
                }
            }
            proof {
                if vv.contains(val@) {
                    let w = choose|w: int| 0 <= w < vv.len() && vv[w] == val@;
                    assert(false);
                }
            }
            false
        },
    }
}

/// Replace `key`'s list or append a fresh entry.
fn km_put_exec(m: &mut Vec<(Vec<u8>, Vec<Vec<u8>>)>, key: &Vec<u8>, vals: Vec<Vec<u8>>)
    ensures
        km_view(final(m)@) =~= km_put(km_view(old(m)@), key@, vals@.map(|q: int, x: Vec<u8>| x@)),
{
    let n = m.len();
    for i in 0..n
        invariant
            n == m.len(),
            m@ == old(m)@,
            km_find(km_view(m@).take(i as int), key@) is None,
    {
        proof {
            lemma_km_find_extend(km_view(m@), key@, i as int);
        }
        if bytes_eq(&m[i].0, key) {
            proof {
                lemma_km_find_prefix(km_view(m@), key@, i as int);
            }
            let _ = m.remove(i);
            m.insert(i, (clone_bytes(key), vals));
            proof {
                assert(km_view(m@) =~~= km_put(
                    km_view(old(m)@),
                    key@,
                    vals@.map(|q: int, x: Vec<u8>| x@),
                ));
            }
            return ;
        }
    }
    proof {
        assert(km_view(m@).take(n as int) =~= km_view(m@));
    }
    m.push((clone_bytes(key), vals));
    proof {
        assert(km_view(m@) =~~= km_put(
            km_view(old(m)@),
            key@,
            vals@.map(|q: int, x: Vec<u8>| x@),
        ));
    }
}

/// Add `val` under `key`, skipping duplicates.
fn km_add_exec(m: &mut Vec<(Vec<u8>, Vec<Vec<u8>>)>, key: &Vec<u8>, val: &Vec<u8>)
    ensures
        km_view(final(m)@) =~= km_add(km_view(old(m)@), key@, val@),
{
    let n = m.len();
    for i in 0..n
        invariant
            n == m.len(),
            m@ == old(m)@,
            km_find(km_view(m@).take(i as int), key@) is None,
    {
        proof {
            lemma_km_find_extend(km_view(m@), key@, i as int);
        }
        if bytes_eq(&m[i].0, key) {
            proof {
                lemma_km_find_prefix(km_view(m@), key@, i as int);
            }
            let mut present = false;
            let vn = m[i].1.len();
            let ghost vv = m@[i as int].1@.map(|q: int, x: Vec<u8>| x@);
            for j in 0..vn
                invariant
                    i < m.len(),
                    vn == m@[i as int].1@.len(),
                    m@ == old(m)@,
                    vv == m@[i as int].1@.map(|q: int, x: Vec<u8>| x@),
                    present <==> exists|q: int| 0 <= q < j && vv[q] == val@,
            {
                proof {
                    assert(vv[j as int] == m@[i as int].1@[j as int]@);
                }
                if bytes_eq(&m[i].1[j], val) {
                    present = true;
                    proof {
                        assert(vv[j as int] == val@);
                    }
                }
            }
            proof {
                if present {
                    let w = choose|q: int| 0 <= q < vn && vv[q] == val@;
                    assert(vv.contains(val@));
                } else {
                    if vv.contains(val@) {
                        let w = choose|w: int| 0 <= w < vv.len() && vv[w] == val@;
                        assert(false);
                    }
                }
            }
            if !present {
                let (k0, mut vs) = m.remove(i);
                vs.push(clone_bytes(val));
                m.insert(i, (k0, vs));
                proof {
                    assert(km_view(m@) =~~= km_add(km_view(old(m)@), key@, val@));
                }
            }
            return ;
        }
    }
    proof {
        assert(km_view(m@).take(n as int) =~= km_view(m@));
    }
    let mut single: Vec<Vec<u8>> = Vec::new();
    single.push(clone_bytes(val));
    m.push((clone_bytes(key), single));
    proof {
        assert(km_view(m@) =~~= km_add(km_view(old(m)@), key@, val@));
    }
}

/// A hit of `km_find` is in bounds and on the key.
proof fn lemma_km_find_bounds(m: KindMap, key: Seq<u8>)
    ensures
        km_find(m, key) matches Some(i) ==> 0 <= i < m.len() && m[i].0 == key,
    decreases m.len(),
{
    if m.len() > 0 && m[0].0 != key {
        lemma_km_find_bounds(m.drop_first(), key);
        match km_find(m.drop_first(), key) {
            Some(i) => {
                assert(m.drop_first()[i] == m[i + 1]);
            },
            None => {},
        }
    }
}

/// `km_find` over a prefix extended by one entry.
proof fn lemma_km_find_extend(m: KindMap, key: Seq<u8>, i: int)
    requires
        0 <= i < m.len(),
        km_find(m.take(i), key) is None,
    ensures
        m[i].0 == key ==> km_find(m.take(i + 1), key) == Some(i),
        m[i].0 != key ==> km_find(m.take(i + 1), key) is None,
    decreases i,
{
    if i == 0 {
        assert(m.take(1)[0] == m[0]);
        if m[0].0 != key {
            assert(m.take(1).drop_first() =~= Seq::<(Seq<u8>, Seq<Seq<u8>>)>::empty());
        }
    } else {
        assert(m.take(i)[0] == m[0]);
        assert(m.take(i + 1)[0] == m[0]);
        assert(m.take(i).drop_first() =~= m.drop_first().take(i - 1));
        assert(m.take(i + 1).drop_first() =~= m.drop_first().take(i));
        assert(m.drop_first()[i - 1] == m[i]);
        lemma_km_find_extend(m.drop_first(), key, i - 1);
    }
}

/// A hit at `i` of a prefix is a hit of the whole list.
proof fn lemma_km_find_prefix(m: KindMap, key: Seq<u8>, i: int)
    requires
        0 <= i < m.len(),
        km_find(m.take(i), key) is None,
        m[i].0 == key,
    ensures
        km_find(m, key) == Some(i),
    decreases i,
{
    if i == 0 {
    } else {
        assert(m.take(i)[0] == m[0]);
        assert(m[0].0 != key);
        assert(m.take(i).drop_first() =~= m.drop_first().take(i - 1));
        assert(m.drop_first()[i - 1] == m[i]);
        lemma_km_find_prefix(m.drop_first(), key, i - 1);
    }
}

/// Unrolling `build_parents_one` from the right.
proof fn lemma_bpo_snoc(m: KindMap, parent: Seq<u8>, subs: Seq<Seq<u8>>, j: int)
    requires
        0 <= j < subs.len(),
    ensures
        build_parents_one(m, parent, subs.take(j + 1)) == km_add(
            build_parents_one(m, parent, subs.take(j)),
            subs[j],
            parent,
        ),
    decreases j,
{
    if j == 0 {
        assert(subs.take(1).drop_first() =~= Seq::<Seq<u8>>::empty());
        assert(subs.take(1)[0] == subs[0]);
        assert(subs.take(0) =~= Seq::<Seq<u8>>::empty());
        assert(build_parents_one(m, parent, Seq::<Seq<u8>>::empty()) == m);
        assert(build_parents_one(km_add(m, subs[0], parent), parent, Seq::<Seq<u8>>::empty())
            == km_add(m, subs[0], parent));
    } else {
        assert(subs.take(j + 1)[0] == subs[0]);
        assert(subs.take(j)[0] == subs[0]);
        assert(subs.take(j + 1).drop_first() =~= subs.drop_first().take(j));
        assert(subs.take(j).drop_first() =~= subs.drop_first().take(j - 1));
        assert(subs.drop_first()[j - 1] == subs[j]);
        lemma_bpo_snoc(km_add(m, subs[0], parent), parent, subs.drop_first(), j - 1);
        assert(build_parents_one(m, parent, subs.take(j + 1)) == build_parents_one(
            km_add(m, subs[0], parent),
            parent,
            subs.drop_first().take(j),
        ));
        assert(build_parents_one(m, parent, subs.take(j)) == build_parents_one(
            km_add(m, subs[0], parent),
            parent,
            subs.drop_first().take(j - 1),
        ));
    }
}

} // verus!
