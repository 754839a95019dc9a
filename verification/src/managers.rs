//! The index managers. Each owns one column family and stages its
//! mutations on a shared write batch, so composite updates across several
//! indexes apply atomically on commit. Reads and scans go straight to the
//! store; cascades (vertex delete, edge delete) read sibling indexes and
//! stage the dependent deletions.

use vstd::prelude::*;

use crate::codec::{
    be_bytes, build_edge_key, build_range_key, build_range_prefix, build_type_value,
    build_vertex_key, build_vertex_prop_key, build_edge_prop_key, build_datetime_value,
    decode_range_key, decode_type_value, decode_datetime_value, edge_key, edge_prop_key,
    from_be, lemma_be_len, lemma_edge_prop_prefix_parse, lemma_from_be_be,
    lemma_lex_eq_head, lemma_lex_irrefl, lemma_parse_range_key_recompose, lemma_pow256_8,
    lemma_range_key_order, lemma_range_key_round_trip, lemma_range_prefix_determines,
    lemma_type_value_recompose,
    lemma_vertex_prop_prefix_parse, lex_lt, parse_range_key, range_key, range_prefix,
    valid_type_value, vertex_key, vertex_prop_key,
};
use crate::json::{json_bytes_of, json_from_bytes, json_parse_of, json_to_bytes};
use crate::store::{
    del_op, put_op, Cf, MemStore, StoreView, WriteBatch, ops_all_deletes, ops_delete_key,
};
use crate::types::{valid_type, Datetime, Error, Id, Type, Vertex};

verus! {

// ---------------------------------------------------------------------------
// Spec: what each composite operation stages
// ---------------------------------------------------------------------------

/// The timestamp stored for an edge, when its row exists and is well
/// formed.
pub open spec fn edge_stored_dt(s: StoreView, o: Seq<u8>, t: Seq<u8>, i: Seq<u8>) -> Option<u64> {
    let m = s.cf(Cf::Edges);
    let k = edge_key(o, t, i);
    if m.contains_key(k) && m[k].len() == 8 {
        Some(from_be(m[k]) as u64)
    } else {
        None
    }
}

/// The operations an edge upsert stages: drop the stale range rows, if
/// any, and write the edge row plus both fresh range rows.
pub open spec fn edge_set_ops(
    o: Seq<u8>,
    t: Seq<u8>,
    i: Seq<u8>,
    d: u64,
    prior: Option<u64>,
) -> Seq<(Cf, bool, Seq<u8>, Seq<u8>)> {
    let puts = seq![
        put_op(Cf::Edges, edge_key(o, t, i), be_bytes(d as nat, 8)),
        put_op(Cf::EdgeRanges, range_key(o, t, d, i), Seq::empty()),
        put_op(Cf::ReversedEdgeRanges, range_key(i, t, d, o), Seq::empty()),
    ];
    match prior {
        None => puts,
        Some(p) => seq![
            del_op(Cf::EdgeRanges, range_key(o, t, p, i)),
            del_op(Cf::ReversedEdgeRanges, range_key(i, t, p, o)),
        ] + puts,
    }
}

/// The operations an edge delete stages: the edge row, both range rows at
/// the given instant, and one delete per property name of the edge.
pub open spec fn edge_delete_ops(
    o: Seq<u8>,
    t: Seq<u8>,
    i: Seq<u8>,
    d: u64,
    names: Seq<Seq<u8>>,
) -> Seq<(Cf, bool, Seq<u8>, Seq<u8>)> {
    seq![
        del_op(Cf::Edges, edge_key(o, t, i)),
        del_op(Cf::EdgeRanges, range_key(o, t, d, i)),
        del_op(Cf::ReversedEdgeRanges, range_key(i, t, d, o)),
    ] + names.map_values(|n: Seq<u8>| del_op(Cf::EdgeProperties, edge_prop_key(o, t, i, n)))
}

/// Whether `ops` stages the removal of one edge and everything it owns:
/// its row, both range rows at `d`, and every property it has in `s`.
pub open spec fn edge_removal_staged(
    s: StoreView,
    o: Seq<u8>,
    t: Seq<u8>,
    i: Seq<u8>,
    d: u64,
    ops: Seq<(Cf, bool, Seq<u8>, Seq<u8>)>,
) -> bool {
    &&& ops_delete_key(ops, Cf::Edges, edge_key(o, t, i))
    &&& ops_delete_key(ops, Cf::EdgeRanges, range_key(o, t, d, i))
    &&& ops_delete_key(ops, Cf::ReversedEdgeRanges, range_key(i, t, d, o))
    &&& forall|n: Seq<u8>|
        s.cf(Cf::EdgeProperties).contains_key(#[trigger] edge_prop_key(o, t, i, n))
            ==> ops_delete_key(ops, Cf::EdgeProperties, edge_prop_key(o, t, i, n))
}

/// Whether one staged operation stays inside a vertex's cascade scope:
/// the vertex's own row, its properties, or a row of an edge that has the
/// vertex as an endpoint.
pub open spec fn vertex_scoped_op(id: Seq<u8>, op: (Cf, bool, Seq<u8>, Seq<u8>)) -> bool {
    &&& (op.0 == Cf::Vertices ==> op.2 == vertex_key(id))
    &&& (op.0 == Cf::VertexProperties ==> id.is_prefix_of(op.2))
    &&& (op.0 == Cf::Edges ==> exists|t: Seq<u8>, x: Seq<u8>|
        #![trigger edge_key(id, t, x)]
        #![trigger edge_key(x, t, id)]
        valid_type(t) && x.len() == 16 && (op.2 == edge_key(id, t, x) || op.2 == edge_key(
            x,
            t,
            id,
        )))
    &&& (op.0 == Cf::EdgeRanges ==> exists|t: Seq<u8>, d: u64, x: Seq<u8>|
        #![trigger range_key(id, t, d, x)]
        #![trigger range_key(x, t, d, id)]
        valid_type(t) && x.len() == 16 && (op.2 == range_key(id, t, d, x) || op.2 == range_key(
            x,
            t,
            d,
            id,
        )))
    &&& (op.0 == Cf::ReversedEdgeRanges ==> exists|t: Seq<u8>, d: u64, x: Seq<u8>|
        #![trigger range_key(id, t, d, x)]
        #![trigger range_key(x, t, d, id)]
        valid_type(t) && x.len() == 16 && (op.2 == range_key(id, t, d, x) || op.2 == range_key(
            x,
            t,
            d,
            id,
        )))
    &&& (op.0 == Cf::EdgeProperties ==> exists|t: Seq<u8>, x: Seq<u8>, n: Seq<u8>|
        #![trigger edge_prop_key(id, t, x, n)]
        #![trigger edge_prop_key(x, t, id, n)]
        valid_type(t) && x.len() == 16 && (op.2 == edge_prop_key(id, t, x, n) || op.2
            == edge_prop_key(x, t, id, n)))
}

/// Whether `ops` stages a whole vertex cascade: the vertex row, all its
/// properties, and the removal of every edge a range row of `s` ties to
/// it, in either direction; and `ops` holds deletes only, each confined
/// to the vertex's own rows or to rows of its incident edges.
pub open spec fn vertex_delete_staged(
    s: StoreView,
    id: Seq<u8>,
    ops: Seq<(Cf, bool, Seq<u8>, Seq<u8>)>,
) -> bool {
    &&& ops_all_deletes(ops)
    &&& ops_delete_key(ops, Cf::Vertices, vertex_key(id))
    &&& forall|k: Seq<u8>|
        s.cf(Cf::VertexProperties).contains_key(k) && id.is_prefix_of(k) ==> ops_delete_key(
            ops,
            Cf::VertexProperties,
            k,
        )
    &&& forall|t: Seq<u8>, d: u64, i: Seq<u8>|
        valid_type(t) && i.len() == 16 && s.cf(Cf::EdgeRanges).contains_key(
            #[trigger] range_key(id, t, d, i),
        ) ==> edge_removal_staged(s, id, t, i, d, ops)
    &&& forall|t: Seq<u8>, d: u64, o: Seq<u8>|
        valid_type(t) && o.len() == 16 && s.cf(Cf::ReversedEdgeRanges).contains_key(
            #[trigger] range_key(id, t, d, o),
        ) ==> edge_removal_staged(s, o, t, id, d, ops)
    &&& forall|j: int| 0 <= j < ops.len() ==> vertex_scoped_op(id, #[trigger] ops[j])
}

/// The view of one yielded range row.
pub open spec fn range_item_view(it: (Id, Type, Datetime, Id)) -> (Seq<u8>, Seq<u8>, u64, Seq<u8>) {
    (it.0@, it.1@, it.2.millis, it.3@)
}

/// The filter a range query applies: a fixed first component, optionally
/// a fixed type, optionally an inclusive upper time bound.
pub open spec fn range_row_matches(
    first: Seq<u8>,
    tf: Option<Seq<u8>>,
    hf: Option<u64>,
    row: (Seq<u8>, Seq<u8>, u64, Seq<u8>),
) -> bool {
    &&& row.0 == first
    &&& (tf matches Some(tb) ==> row.1 == tb)
    &&& (hf matches Some(h) ==> row.2 <= h)
}

/// The spec view of an optional type filter.
pub open spec fn opt_type_view(t: Option<&Type>) -> Option<Seq<u8>> {
    match t {
        Some(tt) => Some(tt@),
        None => None,
    }
}

/// The spec view of an optional time bound.
pub open spec fn opt_dt_view(h: Option<Datetime>) -> Option<u64> {
    match h {
        Some(d) => Some(d.millis),
        None => None,
    }
}

/// A staged delete stays staged when more operations follow.
proof fn lemma_ops_delete_key_grows(
    ops: Seq<(Cf, bool, Seq<u8>, Seq<u8>)>,
    more: Seq<(Cf, bool, Seq<u8>, Seq<u8>)>,
    cf: Cf,
    k: Seq<u8>,
)
    requires
        ops_delete_key(ops, cf, k),
    ensures
        ops_delete_key(ops + more, cf, k),
{
    let j = choose|j: int|
        0 <= j < ops.len() && !(#[trigger] ops[j]).1 && ops[j].0 == cf && ops[j].2 == k;
    assert((ops + more)[j] == ops[j]);
}

/// The operation list of an edge delete stages that edge's removal.
proof fn lemma_edge_delete_ops_facts(
    s: StoreView,
    o: Seq<u8>,
    t: Seq<u8>,
    i: Seq<u8>,
    d: u64,
    names: Seq<Seq<u8>>,
)
    requires
        forall|n: Seq<u8>|
            s.cf(Cf::EdgeProperties).contains_key(#[trigger] edge_prop_key(o, t, i, n))
                ==> names.contains(n),
    ensures
        ops_all_deletes(edge_delete_ops(o, t, i, d, names)),
        edge_removal_staged(s, o, t, i, d, edge_delete_ops(o, t, i, d, names)),
        forall|j: int|
            0 <= j < edge_delete_ops(o, t, i, d, names).len() ==> (#[trigger] edge_delete_ops(
                o,
                t,
                i,
                d,
                names,
            )[j]).0 != Cf::Vertices && edge_delete_ops(o, t, i, d, names)[j].0
                != Cf::VertexProperties,
{
    let ops = edge_delete_ops(o, t, i, d, names);
    let tail = names.map_values(|n: Seq<u8>| del_op(Cf::EdgeProperties, edge_prop_key(o, t, i, n)));
    assert(ops.len() == 3 + names.len());
    assert forall|j: int| 0 <= j < ops.len() implies !(#[trigger] ops[j]).1 && ops[j].0
        != Cf::Vertices && ops[j].0 != Cf::VertexProperties by {
        if j >= 3 {
            assert(ops[j] == tail[j - 3]);
            assert(tail[j - 3] == del_op(Cf::EdgeProperties, edge_prop_key(o, t, i, names[j - 3])));
        }
    }
    assert(!ops[0].1 && ops[0].0 == Cf::Edges && ops[0].2 == edge_key(o, t, i));
    assert(!ops[1].1 && ops[1].0 == Cf::EdgeRanges && ops[1].2 == range_key(o, t, d, i));
    assert(!ops[2].1 && ops[2].0 == Cf::ReversedEdgeRanges && ops[2].2 == range_key(i, t, d, o));
    assert forall|n: Seq<u8>|
        s.cf(Cf::EdgeProperties).contains_key(#[trigger] edge_prop_key(o, t, i, n))
        implies ops_delete_key(ops, Cf::EdgeProperties, edge_prop_key(o, t, i, n)) by {
        let m = choose|m: int| 0 <= m < names.len() && names[m] == n;
        assert(ops[3 + m] == tail[m]);
        assert(tail[m] == del_op(Cf::EdgeProperties, edge_prop_key(o, t, i, n)));
    }
}

/// Every operation of an edge removal stays inside the cascade scope of
/// either endpoint.
proof fn lemma_edge_delete_ops_scoped(
    id: Seq<u8>,
    o: Seq<u8>,
    t: Seq<u8>,
    i: Seq<u8>,
    d: u64,
    names: Seq<Seq<u8>>,
)
    requires
        valid_type(t),
        o.len() == 16,
        i.len() == 16,
        o == id || i == id,
    ensures
        forall|j: int|
            0 <= j < edge_delete_ops(o, t, i, d, names).len() ==> vertex_scoped_op(
                id,
                #[trigger] edge_delete_ops(o, t, i, d, names)[j],
            ),
{
    let ops = edge_delete_ops(o, t, i, d, names);
    let tail = names.map_values(|n: Seq<u8>| del_op(Cf::EdgeProperties, edge_prop_key(o, t, i, n)));
    assert forall|j: int| 0 <= j < ops.len() implies vertex_scoped_op(id, #[trigger] ops[j]) by {
        if j == 0 {
            assert(ops[0] == del_op(Cf::Edges, edge_key(o, t, i)));
            if o == id {
                assert(valid_type(t) && i.len() == 16 && (ops[0].2 == edge_key(id, t, i)
                    || ops[0].2 == edge_key(i, t, id)));
            } else {
                assert(valid_type(t) && o.len() == 16 && (ops[0].2 == edge_key(id, t, o)
                    || ops[0].2 == edge_key(o, t, id)));
            }
            assert(vertex_scoped_op(id, ops[0]));
        } else if j == 1 {
            assert(ops[1] == del_op(Cf::EdgeRanges, range_key(o, t, d, i)));
            if o == id {
                assert(valid_type(t) && i.len() == 16 && (ops[1].2 == range_key(id, t, d, i)
                    || ops[1].2 == range_key(i, t, d, id)));
            } else {
                assert(valid_type(t) && o.len() == 16 && (ops[1].2 == range_key(id, t, d, o)
                    || ops[1].2 == range_key(o, t, d, id)));
            }
        } else if j == 2 {
            assert(ops[2] == del_op(Cf::ReversedEdgeRanges, range_key(i, t, d, o)));
            if i == id {
                assert(valid_type(t) && o.len() == 16 && (ops[2].2 == range_key(id, t, d, o)
                    || ops[2].2 == range_key(o, t, d, id)));
            } else {
                assert(valid_type(t) && i.len() == 16 && (ops[2].2 == range_key(id, t, d, i)
                    || ops[2].2 == range_key(i, t, d, id)));
            }
        } else {
            assert(ops[j] == tail[j - 3]);
            assert(tail[j - 3] == del_op(Cf::EdgeProperties, edge_prop_key(o, t, i, names[j - 3])));
            if o == id {
                assert(valid_type(t) && i.len() == 16 && (ops[j].2 == edge_prop_key(
                    id,
                    t,
                    i,
                    names[j - 3],
                ) || ops[j].2 == edge_prop_key(i, t, id, names[j - 3])));
            } else {
                assert(valid_type(t) && o.len() == 16 && (ops[j].2 == edge_prop_key(
                    id,
                    t,
                    o,
                    names[j - 3],
                ) || ops[j].2 == edge_prop_key(o, t, id, names[j - 3])));
            }
        }
    }
}


/// Completeness of a vertex scan: every stored row at or above `low` is
/// among the items.
pub open spec fn vertex_rows_complete(
    m: Map<Seq<u8>, Seq<u8>>,
    low: Seq<u8>,
    items: Seq<(Id, Type)>,
) -> bool {
    forall|k: Seq<u8>|
        m.contains_key(k) && !lex_lt(k, low) ==> exists|j: int|
            0 <= j < items.len() && (#[trigger] items[j]).0@ == k
}

/// Completeness of a range scan: every stored well-formed row passing the
/// filter is among the items.
pub open spec fn range_rows_complete(
    m: Map<Seq<u8>, Seq<u8>>,
    first: Seq<u8>,
    tf: Option<Seq<u8>>,
    hf: Option<u64>,
    items: Seq<(Id, Type, Datetime, Id)>,
) -> bool {
    forall|k: Seq<u8>|
        m.contains_key(k) && parse_range_key(k) is Some && range_row_matches(
            first,
            tf,
            hf,
            parse_range_key(k).unwrap(),
        ) ==> exists|j: int|
            0 <= j < items.len() && Some(range_item_view(#[trigger] items[j])) == parse_range_key(
                k,
            )
}

/// Completeness of a vertex-property scan: every stored name of the owner
/// is among the items.
pub open spec fn vprop_names_complete(
    m: Map<Seq<u8>, Seq<u8>>,
    v: Seq<u8>,
    items: Seq<((Id, Vec<u8>), Result<serde_json::Value, Error>)>,
) -> bool {
    forall|nm: Seq<u8>|
        m.contains_key(#[trigger] vertex_prop_key(v, nm)) ==> exists|j: int|
            0 <= j < items.len() && (#[trigger] items[j]).0.1@ == nm
}

/// Completeness of an edge-property scan: every stored name of the edge
/// is among the items.
pub open spec fn eprop_names_complete(
    m: Map<Seq<u8>, Seq<u8>>,
    o: Seq<u8>,
    t: Seq<u8>,
    i: Seq<u8>,
    items: Seq<((Id, Type, Id, Vec<u8>), Result<serde_json::Value, Error>)>,
) -> bool {
    forall|nm: Seq<u8>|
        m.contains_key(#[trigger] edge_prop_key(o, t, i, nm)) ==> exists|j: int|
            0 <= j < items.len() && (#[trigger] items[j]).0.3@ == nm
}

// ---------------------------------------------------------------------------
// VertexManager
// ---------------------------------------------------------------------------

/// Existence and type of each vertex; its delete cascades across every
/// index that mentions the vertex.
pub struct VertexManager {}

impl VertexManager {
    pub fn new() -> VertexManager {
        VertexManager {  }
    }

    /// Whether the vertex row is present.
    pub fn contains(&self, store: &MemStore, id: &Id) -> (r: Result<bool, Error>)
        requires
            store.wf(),
        ensures
            r matches Ok(b) && (b <==> store@.cf(Cf::Vertices).contains_key(vertex_key(id@))),
    {
        let key = build_vertex_key(id);
        Ok(store.get(Cf::Vertices, &key).is_some())
    }

    /// The vertex's type label, if the vertex exists.
    pub fn get(&self, store: &MemStore, id: &Id) -> (r: Result<Option<Type>, Error>)
        requires
            store.wf(),
        ensures
            ({
                let m = store@.cf(Cf::Vertices);
                let k = vertex_key(id@);
                match r {
                    Ok(None) => !m.contains_key(k),
                    Ok(Some(t)) => m.contains_key(k) && m[k] == crate::codec::type_enc(t@)
                        && valid_type(t@),
                    Err(e) => e == Error::SchemaViolation && m.contains_key(k)
                        && !valid_type_value(m[k]),
                }
            }),
    {
        let key = build_vertex_key(id);
        match store.get(Cf::Vertices, &key) {
            Some(value) => match decode_type_value(&value) {
                Some(t) => {
                    proof {
                        lemma_type_value_recompose(value@);
                    }
                    Ok(Some(t))
                },
                None => Err(Error::SchemaViolation),
            },
            None => Ok(None),
        }
    }

    /// Stage the vertex row: an idempotent upsert of `id -> type`.
    pub fn create(&self, batch: &mut WriteBatch, vertex: &Vertex) -> (r: Result<(), Error>)
        requires
            valid_type(vertex.t@),
        ensures
            r is Ok,
            final(batch)@ == old(batch)@.push(
                put_op(Cf::Vertices, vertex_key(vertex.id@), crate::codec::type_enc(vertex.t@)),
            ),
    {
        let key = build_vertex_key(&vertex.id);
        batch.stage_put(Cf::Vertices, key, build_type_value(&vertex.t));
        Ok(())
    }

    /// All vertex rows from `id` on, in the family's internal order.
    #[verifier::rlimit(50)]
    pub fn iterate_for_range(&self, store: &MemStore, id: &Id) -> (r: Result<
        Vec<(Id, Type)>,
        Error,
    >)
        requires
            store.wf(),
        ensures
            r matches Ok(items) ==> (forall|j: int|
                0 <= j < items@.len() ==> !lex_lt((#[trigger] items@[j]).0@, id@)
                    && store@.cf(Cf::Vertices).contains_key(items@[j].0@) && store@.cf(
                    Cf::Vertices,
                )[items@[j].0@] == crate::codec::type_enc(items@[j].1@) && valid_type(
                    items@[j].1@,
                )),
            r matches Ok(items) ==> vertex_rows_complete(store@.cf(Cf::Vertices), id@, items@),
            r matches Ok(items) ==> (forall|j1: int, j2: int|
                0 <= j1 < j2 < items@.len() ==> lex_lt(
                    (#[trigger] items@[j1]).0@,
                    (#[trigger] items@[j2]).0@,
                )),
            r matches Err(e) ==> e == Error::SchemaViolation && (exists|k: Seq<u8>|
                store@.cf(Cf::Vertices).contains_key(k) && !lex_lt(k, id@) && (k.len() != 16
                    || !valid_type_value(store@.cf(Cf::Vertices)[k]))),
    {
        let low = build_vertex_key(id);
        let rows = store.scan_from(Cf::Vertices, &low);
        let mut items: Vec<(Id, Type)> = Vec::new();
        let n = rows.len();
        let mut idx: usize = 0;
        let ghost m = store@.cf(Cf::Vertices);
        while idx < n
            invariant
                store.wf(),
                m == store@.cf(Cf::Vertices),
                n == rows@.len(),
                idx <= n,
                forall|j: int|
                    0 <= j < rows@.len() ==> !lex_lt((#[trigger] rows@[j]).0@, id@)
                        && m.contains_key(rows@[j].0@) && m[rows@[j].0@] == rows@[j].1@,
                forall|k: Seq<u8>|
                    m.contains_key(k) && !lex_lt(k, id@) ==> exists|j: int|
                        0 <= j < rows@.len() && (#[trigger] rows@[j]).0@ == k,
                items@.len() == idx,
                forall|j: int|
                    0 <= j < idx ==> (#[trigger] items@[j]).0@ == rows@[j].0@ && m.contains_key(
                        items@[j].0@,
                    ) && m[items@[j].0@] == crate::codec::type_enc(items@[j].1@) && valid_type(
                        items@[j].1@,
                    ) && !lex_lt(items@[j].0@, id@),
            decreases n - idx,
        {
            let key_id = match crate::codec::decode_vertex_key(&rows[idx].0) {
                Some(v) => v,
                None => {
                    proof {
                        assert(rows@[idx as int].0@.len() != 16);
                    }
                    return Err(Error::SchemaViolation);
                },
            };
            let t = match decode_type_value(&rows[idx].1) {
                Some(t) => t,
                None => {
                    proof {
                        assert(!valid_type_value(m[rows@[idx as int].0@]));
                    }
                    return Err(Error::SchemaViolation);
                },
            };
            proof {
                lemma_type_value_recompose(rows@[idx as int].1@);
            }
            items.push((key_id, t));
            idx += 1;
        }
        proof {
            assert forall|k: Seq<u8>|
                store@.cf(Cf::Vertices).contains_key(k) && !lex_lt(k, id@) implies exists|j: int|
                0 <= j < items@.len() && (#[trigger] items@[j]).0@ == k by {
                let j = choose|j: int| 0 <= j < rows@.len() && (#[trigger] rows@[j]).0@ == k;
                assert(items@[j].0@ == k);
            }
            assert(vertex_rows_complete(store@.cf(Cf::Vertices), id@, items@));
            assert forall|j1: int, j2: int| 0 <= j1 < j2 < items@.len() implies lex_lt(
                (#[trigger] items@[j1]).0@,
                (#[trigger] items@[j2]).0@,
            ) by {
                assert(items@[j1].0@ == rows@[j1].0@);
                assert(items@[j2].0@ == rows@[j2].0@);
            }
        }
        Ok(items)
    }

    /// Stage the whole cascade of a vertex removal: the vertex row, its
    /// properties, and — through the range indexes — every incident edge
    /// with everything that edge owns.
    pub fn delete(&self, store: &MemStore, batch: &mut WriteBatch, id: &Id) -> (r: Result<
        (),
        Error,
    >)
        requires
            store.wf(),
        ensures
            r matches Ok(()) ==> exists|apd: Seq<(Cf, bool, Seq<u8>, Seq<u8>)>|
                final(batch)@ == old(batch)@ + apd && #[trigger] vertex_delete_staged(
                    store@,
                    id@,
                    apd,
                ),
            r matches Err(e) ==> e == Error::SchemaViolation && final(batch)@ == old(batch)@ && (
            exists|k: Seq<u8>|
                (store@.cf(Cf::EdgeRanges).contains_key(k) || store@.cf(
                    Cf::ReversedEdgeRanges,
                ).contains_key(k)) && id@.is_prefix_of(k) && (#[trigger] parse_range_key(
                    k,
                )) is None),
    {
        let id_key = build_vertex_key(id);
        let vrows = store.scan_prefix(Cf::VertexProperties, &id_key);
        let frows_raw = store.scan_prefix(Cf::EdgeRanges, &id_key);
        let frows = match decode_range_rows(&frows_raw) {
            Ok(x) => x,
            Err(e) => {
                proof {
                    let j = choose|j: int|
                        0 <= j < frows_raw@.len() && parse_range_key(
                            (#[trigger] frows_raw@[j]).0@,
                        ) is None;
                    assert(store@.cf(Cf::EdgeRanges).contains_key(frows_raw@[j].0@)
                        && id@.is_prefix_of(frows_raw@[j].0@));
                }
                return Err(e);
            },
        };
        let rrows_raw = store.scan_prefix(Cf::ReversedEdgeRanges, &id_key);
        let rrows = match decode_range_rows(&rrows_raw) {
            Ok(x) => x,
            Err(e) => {
                proof {
                    let j = choose|j: int|
                        0 <= j < rrows_raw@.len() && parse_range_key(
                            (#[trigger] rrows_raw@[j]).0@,
                        ) is None;
                    assert(store@.cf(Cf::ReversedEdgeRanges).contains_key(rrows_raw@[j].0@)
                        && id@.is_prefix_of(rrows_raw@[j].0@));
                }
                return Err(e);
            },
        };
        let ghost base = batch@;
        let ghost mut apd: Seq<(Cf, bool, Seq<u8>, Seq<u8>)> = Seq::empty();

        batch.stage_delete(Cf::Vertices, build_vertex_key(id));
        proof {
            apd = apd.push(del_op(Cf::Vertices, vertex_key(id@)));
            assert(batch@ =~= base + apd);
            assert(apd.len() == 1);
            assert(apd[0] == del_op(Cf::Vertices, vertex_key(id@)));
            assert(!apd[0].1 && apd[0].0 == Cf::Vertices && apd[0].2 == vertex_key(id@));
            assert(vertex_scoped_op(id@, apd[0]));
        }

        let vertex_property_manager = VertexPropertyManager::new();
        let nv = vrows.len();
        let mut vi: usize = 0;
        while vi < nv
            invariant
                nv == vrows@.len(),
                vi <= nv,
                base == old(batch)@,
                batch@ == base + apd,
                ops_all_deletes(apd),
                ops_delete_key(apd, Cf::Vertices, vertex_key(id@)),
                forall|j: int| 0 <= j < apd.len() ==> vertex_scoped_op(id@, #[trigger] apd[j]),
                forall|j: int|
                    0 <= j < vrows@.len() ==> id@.is_prefix_of((#[trigger] vrows@[j]).0@),
                forall|m: int|
                    0 <= m < vi ==> ops_delete_key(
                        apd,
                        Cf::VertexProperties,
                        (#[trigger] vrows@[m]).0@,
                    ),
            decreases nv - vi,
        {
            let ghost apd0 = apd;
            let k = crate::store::copy_bytes(&vrows[vi].0);
            batch.stage_delete(Cf::VertexProperties, k);
            proof {
                apd = apd.push(del_op(Cf::VertexProperties, vrows@[vi as int].0@));
                assert(batch@ =~= base + apd);
                assert(forall|j: int| 0 <= j < apd0.len() ==> #[trigger] apd[j] == apd0[j]);
                assert(apd[apd.len() - 1] == del_op(Cf::VertexProperties, vrows@[vi as int].0@));
                assert(id@.is_prefix_of(vrows@[vi as int].0@));
                assert(vertex_scoped_op(id@, apd[apd.len() - 1]));
                assert(ops_delete_key(apd, Cf::Vertices, vertex_key(id@))) by {
                    let j0 = choose|j0: int|
                        0 <= j0 < apd0.len() && !(#[trigger] apd0[j0]).1 && apd0[j0].0
                            == Cf::Vertices && apd0[j0].2 == vertex_key(id@);
                    assert(!apd[j0].1 && apd[j0].0 == Cf::Vertices && apd[j0].2 == vertex_key(
                        id@,
                    ));
                }
                assert forall|m: int| 0 <= m < vi + 1 implies ops_delete_key(
                    apd,
                    Cf::VertexProperties,
                    (#[trigger] vrows@[m]).0@,
                ) by {
                    if m < vi {
                        let j = choose|j: int|
                            0 <= j < apd0.len() && !(#[trigger] apd0[j]).1 && apd0[j].0
                                == Cf::VertexProperties && apd0[j].2 == vrows@[m].0@;
                        assert(!apd[j].1 && apd[j].0 == Cf::VertexProperties && apd[j].2
                            == vrows@[m].0@);
                    } else {
                        assert(!apd[apd.len() - 1].1);
                    }
                }
            }
            vi += 1;
        }

        let edge_manager = EdgeManager::new();
        let nf = frows.len();
        let mut fi: usize = 0;
        while fi < nf
            invariant
                store.wf(),
                nf == frows@.len(),
                nv == vrows@.len(),
                fi <= nf,
                base == old(batch)@,
                batch@ == base + apd,
                ops_all_deletes(apd),
                ops_delete_key(apd, Cf::Vertices, vertex_key(id@)),
                forall|j: int| 0 <= j < apd.len() ==> vertex_scoped_op(id@, #[trigger] apd[j]),
                forall|m: int|
                    0 <= m < nv ==> ops_delete_key(
                        apd,
                        Cf::VertexProperties,
                        (#[trigger] vrows@[m]).0@,
                    ),
                forall|j: int|
                    #![trigger frows@[j]]
                    #![trigger frows_raw@[j]]
                    0 <= j < frows@.len() ==> parse_range_key(frows_raw@[j].0@) == Some(
                        range_item_view(frows@[j]),
                    ) && valid_type(frows@[j].1@) && id@.is_prefix_of(frows_raw@[j].0@),
                frows@.len() == frows_raw@.len(),
                forall|m: int|
                    0 <= m < fi ==> edge_removal_staged(
                        store@,
                        (#[trigger] frows@[m]).0@,
                        frows@[m].1@,
                        frows@[m].3@,
                        frows@[m].2.millis,
                        apd,
                    ),
            decreases nf - fi,
        {
            let ghost apd0 = apd;
            let row = &frows[fi];
            edge_manager.delete(store, batch, &row.0, &row.1, &row.3, row.2).unwrap();
            proof {
                let names = choose|names: Seq<Seq<u8>>|
                    batch@ == (base + apd0) + #[trigger] edge_delete_ops(
                        frows@[fi as int].0@,
                        frows@[fi as int].1@,
                        frows@[fi as int].3@,
                        frows@[fi as int].2.millis,
                        names,
                    ) && (forall|n: Seq<u8>|
                        store@.cf(Cf::EdgeProperties).contains_key(
                            #[trigger] edge_prop_key(
                                frows@[fi as int].0@,
                                frows@[fi as int].1@,
                                frows@[fi as int].3@,
                                n,
                            ),
                        ) ==> names.contains(n));
                let eops = edge_delete_ops(
                    frows@[fi as int].0@,
                    frows@[fi as int].1@,
                    frows@[fi as int].3@,
                    frows@[fi as int].2.millis,
                    names,
                );
                lemma_edge_delete_ops_facts(
                    store@,
                    frows@[fi as int].0@,
                    frows@[fi as int].1@,
                    frows@[fi as int].3@,
                    frows@[fi as int].2.millis,
                    names,
                );
                lemma_parse_range_key_recompose(frows_raw@[fi as int].0@);
                assert(frows@[fi as int].0@ == id@) by {
                    assert(frows_raw@[fi as int].0@.subrange(0, 16) =~= frows@[fi as int].0@);
                    assert(id@.len() == 16);
                    assert(id@ =~= frows_raw@[fi as int].0@.subrange(0, 16));
                }
                lemma_edge_delete_ops_scoped(
                    id@,
                    frows@[fi as int].0@,
                    frows@[fi as int].1@,
                    frows@[fi as int].3@,
                    frows@[fi as int].2.millis,
                    names,
                );
                apd = apd0 + eops;
                assert(batch@ =~= base + apd);
                lemma_staged_facts_grow(store@, id@, apd0, eops, vrows@, frows@, fi as int);
                assert forall|m: int| 0 <= m < fi + 1 implies edge_removal_staged(
                    store@,
                    (#[trigger] frows@[m]).0@,
                    frows@[m].1@,
                    frows@[m].3@,
                    frows@[m].2.millis,
                    apd,
                ) by {
                    if m < fi {
                        lemma_edge_removal_staged_grows(
                            store@,
                            frows@[m].0@,
                            frows@[m].1@,
                            frows@[m].3@,
                            frows@[m].2.millis,
                            apd0,
                            eops,
                        );
                    } else {
                        lemma_edge_removal_staged_lift(
                            store@,
                            frows@[m].0@,
                            frows@[m].1@,
                            frows@[m].3@,
                            frows@[m].2.millis,
                            apd0,
                            eops,
                        );
                    }
                }
            }
            fi += 1;
        }

        let reversed_manager_rows_len = rrows.len();
        let mut ri: usize = 0;
        while ri < reversed_manager_rows_len
            invariant
                store.wf(),
                reversed_manager_rows_len == rrows@.len(),
                ri <= reversed_manager_rows_len,
                base == old(batch)@,
                batch@ == base + apd,
                ops_all_deletes(apd),
                ops_delete_key(apd, Cf::Vertices, vertex_key(id@)),
                forall|j: int| 0 <= j < apd.len() ==> vertex_scoped_op(id@, #[trigger] apd[j]),
                nv == vrows@.len(),
                nf == frows@.len(),
                forall|m: int|
                    0 <= m < nv ==> ops_delete_key(
                        apd,
                        Cf::VertexProperties,
                        (#[trigger] vrows@[m]).0@,
                    ),
                forall|m: int|
                    0 <= m < nf ==> edge_removal_staged(
                        store@,
                        (#[trigger] frows@[m]).0@,
                        frows@[m].1@,
                        frows@[m].3@,
                        frows@[m].2.millis,
                        apd,
                    ),
                forall|j: int|
                    #![trigger rrows@[j]]
                    #![trigger rrows_raw@[j]]
                    0 <= j < rrows@.len() ==> parse_range_key(rrows_raw@[j].0@) == Some(
                        range_item_view(rrows@[j]),
                    ) && valid_type(rrows@[j].1@) && id@.is_prefix_of(rrows_raw@[j].0@),
                rrows@.len() == rrows_raw@.len(),
                forall|m: int|
                    0 <= m < ri ==> edge_removal_staged(
                        store@,
                        (#[trigger] rrows@[m]).3@,
                        rrows@[m].1@,
                        rrows@[m].0@,
                        rrows@[m].2.millis,
                        apd,
                    ),
            decreases reversed_manager_rows_len - ri,
        {
            let ghost apd0 = apd;
            let row = &rrows[ri];
            edge_manager.delete(store, batch, &row.3, &row.1, &row.0, row.2).unwrap();
            proof {
                let names = choose|names: Seq<Seq<u8>>|
                    batch@ == (base + apd0) + #[trigger] edge_delete_ops(
                        rrows@[ri as int].3@,
                        rrows@[ri as int].1@,
                        rrows@[ri as int].0@,
                        rrows@[ri as int].2.millis,
                        names,
                    ) && (forall|n: Seq<u8>|
                        store@.cf(Cf::EdgeProperties).contains_key(
                            #[trigger] edge_prop_key(
                                rrows@[ri as int].3@,
                                rrows@[ri as int].1@,
                                rrows@[ri as int].0@,
                                n,
                            ),
                        ) ==> names.contains(n));
                let eops = edge_delete_ops(
                    rrows@[ri as int].3@,
                    rrows@[ri as int].1@,
                    rrows@[ri as int].0@,
                    rrows@[ri as int].2.millis,
                    names,
                );
                lemma_edge_delete_ops_facts(
                    store@,
                    rrows@[ri as int].3@,
                    rrows@[ri as int].1@,
                    rrows@[ri as int].0@,
                    rrows@[ri as int].2.millis,
                    names,
                );
                lemma_parse_range_key_recompose(rrows_raw@[ri as int].0@);
                assert(rrows@[ri as int].0@ == id@) by {
                    assert(rrows_raw@[ri as int].0@.subrange(0, 16) =~= rrows@[ri as int].0@);
                    assert(id@.len() == 16);
                    assert(id@ =~= rrows_raw@[ri as int].0@.subrange(0, 16));
                }
                lemma_edge_delete_ops_scoped(
                    id@,
                    rrows@[ri as int].3@,
                    rrows@[ri as int].1@,
                    rrows@[ri as int].0@,
                    rrows@[ri as int].2.millis,
                    names,
                );
                apd = apd0 + eops;
                assert(batch@ =~= base + apd);
                lemma_staged_facts_grow(store@, id@, apd0, eops, vrows@, frows@, nf as int);
                assert forall|m: int| 0 <= m < ri + 1 implies edge_removal_staged(
                    store@,
                    (#[trigger] rrows@[m]).3@,
                    rrows@[m].1@,
                    rrows@[m].0@,
                    rrows@[m].2.millis,
                    apd,
                ) by {
                    if m < ri {
                        lemma_edge_removal_staged_grows(
                            store@,
                            rrows@[m].3@,
                            rrows@[m].1@,
                            rrows@[m].0@,
                            rrows@[m].2.millis,
                            apd0,
                            eops,
                        );
                    } else {
                        lemma_edge_removal_staged_lift(
                            store@,
                            rrows@[m].3@,
                            rrows@[m].1@,
                            rrows@[m].0@,
                            rrows@[m].2.millis,
                            apd0,
                            eops,
                        );
                    }
                }
            }
            ri += 1;
        }

        proof {
            assert forall|k: Seq<u8>|
                store@.cf(Cf::VertexProperties).contains_key(k) && id@.is_prefix_of(k)
                implies ops_delete_key(apd, Cf::VertexProperties, k) by {
                let j = choose|j: int| 0 <= j < vrows@.len() && (#[trigger] vrows@[j]).0@ == k;
            }
            assert forall|t: Seq<u8>, d: u64, i: Seq<u8>|
                valid_type(t) && i.len() == 16 && store@.cf(Cf::EdgeRanges).contains_key(
                    #[trigger] range_key(id@, t, d, i),
                ) implies edge_removal_staged(store@, id@, t, i, d, apd) by {
                let k = range_key(id@, t, d, i);
                lemma_range_key_round_trip(id@, t, d, i);
                assert(id@.is_prefix_of(k)) by {
                    assert(k.subrange(0, 16) =~= id@);
                }
                let j = choose|j: int| 0 <= j < frows_raw@.len() && (#[trigger] frows_raw@[j]).0@ == k;
                assert(parse_range_key(k) == Some(range_item_view(frows@[j])));
                assert(frows@[j].0@ == id@ && frows@[j].1@ == t && frows@[j].2.millis == d
                    && frows@[j].3@ == i);
            }
            assert forall|t: Seq<u8>, d: u64, o: Seq<u8>|
                valid_type(t) && o.len() == 16 && store@.cf(Cf::ReversedEdgeRanges).contains_key(
                    #[trigger] range_key(id@, t, d, o),
                ) implies edge_removal_staged(store@, o, t, id@, d, apd) by {
                let k = range_key(id@, t, d, o);
                lemma_range_key_round_trip(id@, t, d, o);
                assert(id@.is_prefix_of(k)) by {
                    assert(k.subrange(0, 16) =~= id@);
                }
                let j = choose|j: int| 0 <= j < rrows_raw@.len() && (#[trigger] rrows_raw@[j]).0@ == k;
                assert(parse_range_key(k) == Some(range_item_view(rrows@[j])));
                assert(rrows@[j].0@ == id@ && rrows@[j].1@ == t && rrows@[j].2.millis == d
                    && rrows@[j].3@ == o);
            }
            assert(vertex_delete_staged(store@, id@, apd));
        }
        Ok(())
    }
}

/// Facts already staged stay staged when an edge removal is appended.
proof fn lemma_edge_removal_staged_grows(
    s: StoreView,
    o: Seq<u8>,
    t: Seq<u8>,
    i: Seq<u8>,
    d: u64,
    ops: Seq<(Cf, bool, Seq<u8>, Seq<u8>)>,
    more: Seq<(Cf, bool, Seq<u8>, Seq<u8>)>,
)
    requires
        edge_removal_staged(s, o, t, i, d, ops),
    ensures
        edge_removal_staged(s, o, t, i, d, ops + more),
{
    lemma_ops_delete_key_grows(ops, more, Cf::Edges, edge_key(o, t, i));
    lemma_ops_delete_key_grows(ops, more, Cf::EdgeRanges, range_key(o, t, d, i));
    lemma_ops_delete_key_grows(ops, more, Cf::ReversedEdgeRanges, range_key(i, t, d, o));
    assert forall|n: Seq<u8>|
        s.cf(Cf::EdgeProperties).contains_key(#[trigger] edge_prop_key(o, t, i, n))
        implies ops_delete_key(ops + more, Cf::EdgeProperties, edge_prop_key(o, t, i, n)) by {
        lemma_ops_delete_key_grows(ops, more, Cf::EdgeProperties, edge_prop_key(o, t, i, n));
    }
}

/// An edge removal staged in the appended half is staged in the whole.
proof fn lemma_edge_removal_staged_lift(
    s: StoreView,
    o: Seq<u8>,
    t: Seq<u8>,
    i: Seq<u8>,
    d: u64,
    ops: Seq<(Cf, bool, Seq<u8>, Seq<u8>)>,
    more: Seq<(Cf, bool, Seq<u8>, Seq<u8>)>,
)
    requires
        ops_all_deletes(ops),
        ops_all_deletes(more),
        edge_removal_staged(s, o, t, i, d, more),
    ensures
        edge_removal_staged(s, o, t, i, d, ops + more),
{
    lemma_ops_delete_prefix_all(ops, more);
    assert(ops_delete_key(more, Cf::Edges, edge_key(o, t, i)));
    assert(ops_delete_key(more, Cf::EdgeRanges, range_key(o, t, d, i)));
    assert(ops_delete_key(more, Cf::ReversedEdgeRanges, range_key(i, t, d, o)));
    assert forall|n: Seq<u8>|
        s.cf(Cf::EdgeProperties).contains_key(#[trigger] edge_prop_key(o, t, i, n))
        implies ops_delete_key(ops + more, Cf::EdgeProperties, edge_prop_key(o, t, i, n)) by {
        assert(ops_delete_key(more, Cf::EdgeProperties, edge_prop_key(o, t, i, n)));
    }
}

/// A delete staged in either half of a concatenation is staged in it.
proof fn lemma_ops_delete_prefix_all(
    ops: Seq<(Cf, bool, Seq<u8>, Seq<u8>)>,
    more: Seq<(Cf, bool, Seq<u8>, Seq<u8>)>,
)
    requires
        ops_all_deletes(ops),
        ops_all_deletes(more),
    ensures
        ops_all_deletes(ops + more),
        forall|cf: Cf, k: Seq<u8>|
            #[trigger] ops_delete_key(more, cf, k) ==> ops_delete_key(ops + more, cf, k),
{
    assert forall|j: int| 0 <= j < (ops + more).len() implies !(#[trigger] (ops + more)[j]).1 by {
        if j < ops.len() {
            assert((ops + more)[j] == ops[j]);
        } else {
            assert((ops + more)[j] == more[j - ops.len()]);
        }
    }
    assert forall|cf: Cf, k: Seq<u8>| #[trigger] ops_delete_key(more, cf, k) implies ops_delete_key(
        ops + more,
        cf,
        k,
    ) by {
        let j = choose|j: int|
            0 <= j < more.len() && !(#[trigger] more[j]).1 && more[j].0 == cf && more[j].2 == k;
        assert((ops + more)[ops.len() + j] == more[j]);
    }
}

/// Every accumulated cascade fact survives appending one more edge
/// removal, and the new operations respect the vertex confinement.
proof fn lemma_staged_facts_grow(
    s: StoreView,
    id: Seq<u8>,
    apd0: Seq<(Cf, bool, Seq<u8>, Seq<u8>)>,
    eops: Seq<(Cf, bool, Seq<u8>, Seq<u8>)>,
    vrows: Seq<(Vec<u8>, Vec<u8>)>,
    frows: Seq<(Id, Type, Datetime, Id)>,
    upto: int,
)
    requires
        ops_all_deletes(apd0),
        ops_all_deletes(eops),
        ops_delete_key(apd0, Cf::Vertices, vertex_key(id)),
        forall|j: int| 0 <= j < apd0.len() ==> vertex_scoped_op(id, #[trigger] apd0[j]),
        forall|j: int| 0 <= j < eops.len() ==> vertex_scoped_op(id, #[trigger] eops[j]),
        forall|m: int|
            0 <= m < vrows.len() ==> ops_delete_key(
                apd0,
                Cf::VertexProperties,
                (#[trigger] vrows[m]).0@,
            ),
        0 <= upto <= frows.len(),
        forall|m: int|
            0 <= m < upto ==> edge_removal_staged(
                s,
                (#[trigger] frows[m]).0@,
                frows[m].1@,
                frows[m].3@,
                frows[m].2.millis,
                apd0,
            ),
    ensures
        ops_all_deletes(apd0 + eops),
        ops_delete_key(apd0 + eops, Cf::Vertices, vertex_key(id)),
        forall|j: int|
            0 <= j < (apd0 + eops).len() ==> vertex_scoped_op(id, #[trigger] (apd0 + eops)[j]),
        forall|m: int|
            0 <= m < vrows.len() ==> ops_delete_key(
                apd0 + eops,
                Cf::VertexProperties,
                (#[trigger] vrows[m]).0@,
            ),
        forall|m: int|
            0 <= m < upto ==> edge_removal_staged(
                s,
                (#[trigger] frows[m]).0@,
                frows[m].1@,
                frows[m].3@,
                frows[m].2.millis,
                apd0 + eops,
            ),
{
    lemma_ops_delete_prefix_all(apd0, eops);
    lemma_ops_delete_key_grows(apd0, eops, Cf::Vertices, vertex_key(id));
    assert forall|j: int| 0 <= j < (apd0 + eops).len() implies vertex_scoped_op(
        id,
        #[trigger] (apd0 + eops)[j],
    ) by {
        if j < apd0.len() {
            assert((apd0 + eops)[j] == apd0[j]);
            assert(vertex_scoped_op(id, apd0[j]));
        } else {
            assert((apd0 + eops)[j] == eops[j - apd0.len()]);
            assert(vertex_scoped_op(id, eops[j - apd0.len()]));
        }
    }
    assert forall|m: int| 0 <= m < vrows.len() implies ops_delete_key(
        apd0 + eops,
        Cf::VertexProperties,
        (#[trigger] vrows[m]).0@,
    ) by {
        lemma_ops_delete_key_grows(apd0, eops, Cf::VertexProperties, vrows[m].0@);
    }
    assert forall|m: int| 0 <= m < upto implies edge_removal_staged(
        s,
        (#[trigger] frows[m]).0@,
        frows[m].1@,
        frows[m].3@,
        frows[m].2.millis,
        apd0 + eops,
    ) by {
        lemma_edge_removal_staged_grows(
            s,
            frows[m].0@,
            frows[m].1@,
            frows[m].3@,
            frows[m].2.millis,
            apd0,
            eops,
        );
    }
}

/// Decode a batch of scanned range rows, or report the first malformed
/// key.
fn decode_range_rows(rows: &Vec<(Vec<u8>, Vec<u8>)>) -> (r: Result<
    Vec<(Id, Type, Datetime, Id)>,
    Error,
>)
    ensures
        r matches Ok(items) ==> items@.len() == rows@.len() && (forall|j: int|
            #![trigger rows@[j]]
            #![trigger items@[j]]
            0 <= j < items@.len() ==> parse_range_key(rows@[j].0@) == Some(
                range_item_view(items@[j]),
            ) && valid_type(items@[j].1@)),
        r matches Err(e) ==> e == Error::SchemaViolation && exists|j: int|
            0 <= j < rows@.len() && parse_range_key((#[trigger] rows@[j]).0@) is None,
{
    let mut items: Vec<(Id, Type, Datetime, Id)> = Vec::new();
    let n = rows.len();
    let mut idx: usize = 0;
    while idx < n
        invariant
            n == rows@.len(),
            idx <= n,
            items@.len() == idx,
            forall|j: int|
                0 <= j < idx ==> parse_range_key((#[trigger] rows@[j]).0@) == Some(
                    range_item_view(items@[j]),
                ) && valid_type(items@[j].1@),
        decreases n - idx,
    {
        match decode_range_key(&rows[idx].0) {
            Some((f, t, d, s)) => {
                items.push((f, t, d, s));
            },
            None => {
                return Err(Error::SchemaViolation);
            },
        }
        idx += 1;
    }
    Ok(items)
}

// ---------------------------------------------------------------------------
// EdgeManager
// ---------------------------------------------------------------------------

/// Edge existence and last-update instant; its mutations keep both range
/// indexes aligned with the edge rows.
pub struct EdgeManager {}

impl EdgeManager {
    pub fn new() -> EdgeManager {
        EdgeManager {  }
    }

    /// The edge's stored instant, if the edge exists.
    pub fn get(&self, store: &MemStore, outbound_id: &Id, t: &Type, inbound_id: &Id) -> (r: Result<
        Option<Datetime>,
        Error,
    >)
        requires
            store.wf(),
            valid_type(t@),
        ensures
            ({
                let m = store@.cf(Cf::Edges);
                let k = edge_key(outbound_id@, t@, inbound_id@);
                match r {
                    Ok(None) => !m.contains_key(k),
                    Ok(Some(d)) => m.contains_key(k) && m[k] == be_bytes(d.millis as nat, 8),
                    Err(e) => e == Error::SchemaViolation && m.contains_key(k) && m[k].len() != 8,
                }
            }),
    {
        let key = build_edge_key(outbound_id, t, inbound_id);
        match store.get(Cf::Edges, &key) {
            Some(value) => match decode_datetime_value(&value) {
                Some(d) => Ok(Some(d)),
                None => Err(Error::SchemaViolation),
            },
            None => Ok(None),
        }
    }

    /// Stage an edge upsert: rewrite the edge row with the new instant
    /// and move both range rows from the prior instant to the new one.
    pub fn set(
        &self,
        store: &MemStore,
        batch: &mut WriteBatch,
        outbound_id: &Id,
        t: &Type,
        inbound_id: &Id,
        new_update_datetime: Datetime,
    ) -> (r: Result<(), Error>)
        requires
            store.wf(),
            valid_type(t@),
        ensures
            r matches Ok(()) ==> final(batch)@ == old(batch)@ + edge_set_ops(
                outbound_id@,
                t@,
                inbound_id@,
                new_update_datetime.millis,
                edge_stored_dt(store@, outbound_id@, t@, inbound_id@),
            ),
            r matches Err(e) ==> e == Error::SchemaViolation && final(batch)@ == old(batch)@,
            (store@.cf(Cf::Edges).contains_key(edge_key(outbound_id@, t@, inbound_id@))
                && store@.cf(Cf::Edges)[edge_key(outbound_id@, t@, inbound_id@)].len() != 8)
                <==> r is Err,
    {
        let edge_range_manager = EdgeRangeManager::new();
        let reversed_edge_range_manager = EdgeRangeManager::new_reversed();
        let prior = match self.get(store, outbound_id, t, inbound_id) {
            Ok(p) => p,
            Err(e) => {
                return Err(e);
            },
        };
        let ghost base = batch@;
        proof {
            if prior is Some {
                let d = prior.unwrap();
                lemma_be_len(d.millis as nat, 8);
                lemma_pow256_8();
                lemma_from_be_be(d.millis as nat, 8);
            }
        }
        if let Some(update_datetime) = prior {
            edge_range_manager.delete(batch, outbound_id, t, update_datetime, inbound_id);
            reversed_edge_range_manager.delete(batch, inbound_id, t, update_datetime, outbound_id);
        }
        let key = build_edge_key(outbound_id, t, inbound_id);
        batch.stage_put(Cf::Edges, key, build_datetime_value(new_update_datetime));
        edge_range_manager.set(batch, outbound_id, t, new_update_datetime, inbound_id);
        reversed_edge_range_manager.set(batch, inbound_id, t, new_update_datetime, outbound_id);
        proof {
            assert(batch@ =~= base + edge_set_ops(
                outbound_id@,
                t@,
                inbound_id@,
                new_update_datetime.millis,
                edge_stored_dt(store@, outbound_id@, t@, inbound_id@),
            ));
        }
        Ok(())
    }

    /// Stage an edge removal at the edge's current instant: the edge row,
    /// both range rows, and every property of the edge. A stale instant
    /// leaves orphan range rows; the caller passes the current one.
    pub fn delete(
        &self,
        store: &MemStore,
        batch: &mut WriteBatch,
        outbound_id: &Id,
        t: &Type,
        inbound_id: &Id,
        update_datetime: Datetime,
    ) -> (r: Result<(), Error>)
        requires
            store.wf(),
            valid_type(t@),
        ensures
            r is Ok,
            exists|names: Seq<Seq<u8>>|
                final(batch)@ == old(batch)@ + #[trigger] edge_delete_ops(
                    outbound_id@,
                    t@,
                    inbound_id@,
                    update_datetime.millis,
                    names,
                ) && (forall|n: Seq<u8>|
                    store@.cf(Cf::EdgeProperties).contains_key(
                        #[trigger] edge_prop_key(outbound_id@, t@, inbound_id@, n),
                    ) ==> names.contains(n)),
    {
        let ghost base = batch@;
        batch.stage_delete(Cf::Edges, build_edge_key(outbound_id, t, inbound_id));
        let edge_range_manager = EdgeRangeManager::new();
        edge_range_manager.delete(batch, outbound_id, t, update_datetime, inbound_id);
        let reversed_edge_range_manager = EdgeRangeManager::new_reversed();
        reversed_edge_range_manager.delete(batch, inbound_id, t, update_datetime, outbound_id);

        let prefix = build_edge_key(outbound_id, t, inbound_id);
        let ghost plen = prefix@.len() as int;
        let erows = store.scan_prefix(Cf::EdgeProperties, &prefix);
        let ghost head = seq![
            del_op(Cf::Edges, edge_key(outbound_id@, t@, inbound_id@)),
            del_op(
                Cf::EdgeRanges,
                range_key(outbound_id@, t@, update_datetime.millis, inbound_id@),
            ),
            del_op(
                Cf::ReversedEdgeRanges,
                range_key(inbound_id@, t@, update_datetime.millis, outbound_id@),
            ),
        ];
        proof {
            assert(batch@ =~= base + head);
        }
        let ghost mut names: Seq<Seq<u8>> = Seq::empty();
        let n = erows.len();
        let mut idx: usize = 0;
        while idx < n
            invariant
                n == erows@.len(),
                idx <= n,
                base == old(batch)@,
                plen == edge_key(outbound_id@, t@, inbound_id@).len(),
                valid_type(t@),
                forall|j: int|
                    0 <= j < erows@.len() ==> edge_key(outbound_id@, t@, inbound_id@).is_prefix_of(
                        (#[trigger] erows@[j]).0@,
                    ),
                names.len() == idx,
                forall|m: int|
                    0 <= m < idx ==> (#[trigger] names[m]) == erows@[m].0@.skip(plen),
                batch@ == base + head + names.map_values(
                    |nm: Seq<u8>| del_op(
                        Cf::EdgeProperties,
                        edge_prop_key(outbound_id@, t@, inbound_id@, nm),
                    ),
                ),
            decreases n - idx,
        {
            let ghost names0 = names;
            let k = crate::store::copy_bytes(&erows[idx].0);
            proof {
                lemma_edge_prop_prefix_parse(
                    erows@[idx as int].0@,
                    outbound_id@,
                    t@,
                    inbound_id@,
                );
                lemma_parse_eq_means_key_eq(
                    erows@[idx as int].0@,
                    outbound_id@,
                    t@,
                    inbound_id@,
                    plen,
                );
            }
            batch.stage_delete(Cf::EdgeProperties, k);
            proof {
                names = names.push(erows@[idx as int].0@.skip(plen));
                let f = |nm: Seq<u8>| del_op(
                    Cf::EdgeProperties,
                    edge_prop_key(outbound_id@, t@, inbound_id@, nm),
                );
                assert(names.map_values(f) =~= names0.map_values(f).push(
                    f(erows@[idx as int].0@.skip(plen)),
                ));
                assert(batch@ =~= base + head + names.map_values(f));
            }
            idx += 1;
        }
        proof {
            assert(batch@ =~= base + edge_delete_ops(
                outbound_id@,
                t@,
                inbound_id@,
                update_datetime.millis,
                names,
            ));
            assert forall|nm: Seq<u8>|
                store@.cf(Cf::EdgeProperties).contains_key(
                    #[trigger] edge_prop_key(outbound_id@, t@, inbound_id@, nm),
                ) implies names.contains(nm) by {
                let k0 = edge_prop_key(outbound_id@, t@, inbound_id@, nm);
                assert(edge_key(outbound_id@, t@, inbound_id@).is_prefix_of(k0)) by {
                    assert(k0.subrange(0, plen) =~= edge_key(outbound_id@, t@, inbound_id@));
                }
                let j = choose|j: int| 0 <= j < erows@.len() && (#[trigger] erows@[j]).0@ == k0;
                assert(k0.skip(plen) =~= nm);
                assert(names[j] == nm);
            }
        }
        Ok(())
    }
}

/// A key under an edge's prefix equals the property key rebuilt from the
/// remainder behind the prefix.
proof fn lemma_parse_eq_means_key_eq(k: Seq<u8>, o: Seq<u8>, t: Seq<u8>, i: Seq<u8>, plen: int)
    requires
        o.len() == 16,
        valid_type(t),
        i.len() == 16,
        edge_key(o, t, i).is_prefix_of(k),
        plen == edge_key(o, t, i).len(),
    ensures
        k == edge_prop_key(o, t, i, k.skip(plen)),
{
    assert(k.subrange(0, plen) == edge_key(o, t, i));
    assert(edge_prop_key(o, t, i, k.skip(plen)) =~= edge_key(o, t, i) + k.skip(plen));
    assert(k =~= k.subrange(0, plen) + k.skip(plen));
}

// ---------------------------------------------------------------------------
// EdgeRangeManager
// ---------------------------------------------------------------------------

/// A time-ordered traversal index: key-only rows `(first, type, instant,
/// second)`. One instance serves the forward family, one the reversed.
pub struct EdgeRangeManager {
    pub cf: Cf,
}

impl EdgeRangeManager {
    /// The instance over outgoing edges: `first` is the outbound vertex.
    pub fn new() -> (r: EdgeRangeManager)
        ensures
            r.cf == Cf::EdgeRanges,
    {
        EdgeRangeManager { cf: Cf::EdgeRanges }
    }

    /// The instance over incoming edges: `first` is the inbound vertex.
    pub fn new_reversed() -> (r: EdgeRangeManager)
        ensures
            r.cf == Cf::ReversedEdgeRanges,
    {
        EdgeRangeManager { cf: Cf::ReversedEdgeRanges }
    }

    /// Stage one range row, with an empty value.
    pub fn set(
        &self,
        batch: &mut WriteBatch,
        first_id: &Id,
        t: &Type,
        update_datetime: Datetime,
        second_id: &Id,
    ) -> (r: Result<(), Error>)
        requires
            valid_type(t@),
        ensures
            r is Ok,
            final(batch)@ == old(batch)@.push(
                put_op(
                    self.cf,
                    range_key(first_id@, t@, update_datetime.millis, second_id@),
                    Seq::empty(),
                ),
            ),
    {
        let key = build_range_key(first_id, t, update_datetime, second_id);
        batch.stage_put(self.cf, key, Vec::new());
        Ok(())
    }

    /// Stage the removal of one exact range row.
    pub fn delete(
        &self,
        batch: &mut WriteBatch,
        first_id: &Id,
        t: &Type,
        update_datetime: Datetime,
        second_id: &Id,
    ) -> (r: Result<(), Error>)
        requires
            valid_type(t@),
        ensures
            r is Ok,
            final(batch)@ == old(batch)@.push(
                del_op(self.cf, range_key(first_id@, t@, update_datetime.millis, second_id@)),
            ),
    {
        let key = build_range_key(first_id, t, update_datetime, second_id);
        batch.stage_delete(self.cf, key);
        Ok(())
    }

    /// All range rows owned by `id`.
    pub fn iterate_for_owner(&self, store: &MemStore, id: &Id) -> (r: Result<
        Vec<(Id, Type, Datetime, Id)>,
        Error,
    >)
        requires
            store.wf(),
        ensures
            r matches Ok(items) ==> (forall|j: int|
                0 <= j < items@.len() ==> range_row_matches(
                    id@,
                    None,
                    None,
                    range_item_view(#[trigger] items@[j]),
                ) && store@.cf(self.cf).contains_key(range_key(
                    items@[j].0@,
                    items@[j].1@,
                    items@[j].2.millis,
                    items@[j].3@,
                )) && valid_type(items@[j].1@)),
            r matches Ok(items) ==> range_rows_complete(store@.cf(self.cf), id@, None, None, items@),
            r matches Ok(items) ==> (forall|j1: int, j2: int|
                0 <= j1 < j2 < items@.len() ==> lex_lt(
                    range_key(
                        (#[trigger] items@[j1]).0@,
                        items@[j1].1@,
                        items@[j1].2.millis,
                        items@[j1].3@,
                    ),
                    range_key(
                        (#[trigger] items@[j2]).0@,
                        items@[j2].1@,
                        items@[j2].2.millis,
                        items@[j2].3@,
                    ),
                )),
            r matches Ok(items) ==> (forall|j1: int, j2: int|
                0 <= j1 < j2 < items@.len() ==> range_item_view(#[trigger] items@[j1])
                    != range_item_view(#[trigger] items@[j2])),
            r matches Err(e) ==> e == Error::SchemaViolation && (exists|k: Seq<u8>|
                store@.cf(self.cf).contains_key(k) && id@.is_prefix_of(k) && parse_range_key(
                    k,
                ) is None),
    {
        let r = self.iterate_for_range(store, id, None, None);
        proof {
            assert(opt_type_view(None) == Option::<Seq<u8>>::None);
            assert(opt_dt_view(None) == Option::<u64>::None);
        }
        r
    }

    /// The range rows owned by `id`, optionally narrowed to one type and
    /// bounded above in time.
    #[verifier::rlimit(50)]
    pub fn iterate_for_range(
        &self,
        store: &MemStore,
        id: &Id,
        t: Option<&Type>,
        high: Option<Datetime>,
    ) -> (r: Result<Vec<(Id, Type, Datetime, Id)>, Error>)
        requires
            store.wf(),
            t matches Some(tt) ==> valid_type(tt@),
        ensures
            r matches Ok(items) ==> (forall|j: int|
                0 <= j < items@.len() ==> range_row_matches(
                    id@,
                    opt_type_view(t),
                    opt_dt_view(high),
                    range_item_view(#[trigger] items@[j]),
                ) && store@.cf(self.cf).contains_key(range_key(
                    items@[j].0@,
                    items@[j].1@,
                    items@[j].2.millis,
                    items@[j].3@,
                )) && valid_type(items@[j].1@)),
            r matches Ok(items) ==> range_rows_complete(
                store@.cf(self.cf),
                id@,
                opt_type_view(t),
                opt_dt_view(high),
                items@,
            ),
            r matches Ok(items) ==> (t is None ==> forall|j1: int, j2: int|
                0 <= j1 < j2 < items@.len() ==> lex_lt(
                    range_key(
                        (#[trigger] items@[j1]).0@,
                        items@[j1].1@,
                        items@[j1].2.millis,
                        items@[j1].3@,
                    ),
                    range_key(
                        (#[trigger] items@[j2]).0@,
                        items@[j2].1@,
                        items@[j2].2.millis,
                        items@[j2].3@,
                    ),
                )),
            r matches Ok(items) ==> (t is Some ==> forall|j1: int, j2: int|
                0 <= j1 < j2 < items@.len() ==> lex_lt(
                    range_key(
                        (#[trigger] items@[j2]).0@,
                        items@[j2].1@,
                        items@[j2].2.millis,
                        items@[j2].3@,
                    ),
                    range_key(
                        (#[trigger] items@[j1]).0@,
                        items@[j1].1@,
                        items@[j1].2.millis,
                        items@[j1].3@,
                    ),
                )),
            r matches Ok(items) ==> (t is Some ==> forall|j1: int, j2: int|
                0 <= j1 < j2 < items@.len() ==> (#[trigger] items@[j2]).2.millis <= (
                #[trigger] items@[j1]).2.millis),
            r matches Ok(items) ==> (forall|j1: int, j2: int|
                0 <= j1 < j2 < items@.len() ==> range_item_view(#[trigger] items@[j1])
                    != range_item_view(#[trigger] items@[j2])),
            r matches Err(e) ==> e == Error::SchemaViolation && (exists|k: Seq<u8>|
                store@.cf(self.cf).contains_key(k) && id@.is_prefix_of(k) && parse_range_key(
                    k,
                ) is None),
    {
        let prefix = match t {
            Some(tt) => build_range_prefix(id, tt),
            None => build_vertex_key(id),
        };
        let rows = store.scan_prefix(self.cf, &prefix);
        let ghost m = store@.cf(self.cf);
        let mut items: Vec<(Id, Type, Datetime, Id)> = Vec::new();
        let n = rows.len();
        let mut idx: usize = 0;
        while idx < n
            invariant
                store.wf(),
                m == store@.cf(self.cf),
                n == rows@.len(),
                idx <= n,
                t matches Some(tt) ==> valid_type(tt@),
                prefix@ == (match t {
                    Some(tt) => range_prefix(id@, tt@),
                    None => id@,
                }),
                forall|j: int|
                    0 <= j < rows@.len() ==> prefix@.is_prefix_of((#[trigger] rows@[j]).0@)
                        && m.contains_key(rows@[j].0@),
                forall|k: Seq<u8>|
                    m.contains_key(k) && prefix@.is_prefix_of(k) ==> exists|j: int|
                        0 <= j < rows@.len() && (#[trigger] rows@[j]).0@ == k,
                forall|j1: int, j2: int|
                    0 <= j1 < j2 < rows@.len() ==> lex_lt(
                        (#[trigger] rows@[j1]).0@,
                        (#[trigger] rows@[j2]).0@,
                    ),
                forall|j: int|
                    0 <= j < items@.len() ==> range_row_matches(
                        id@,
                        opt_type_view(t),
                        opt_dt_view(high),
                        range_item_view(#[trigger] items@[j]),
                    ) && m.contains_key(range_key(
                        items@[j].0@,
                        items@[j].1@,
                        items@[j].2.millis,
                        items@[j].3@,
                    )) && valid_type(items@[j].1@),
                forall|j: int|
                    0 <= j < items@.len() ==> exists|jr: int|
                        0 <= jr < idx && rows@[jr].0@ == range_key(
                            (#[trigger] items@[j]).0@,
                            items@[j].1@,
                            items@[j].2.millis,
                            items@[j].3@,
                        ),
                forall|j1: int, j2: int|
                    0 <= j1 < j2 < items@.len() ==> lex_lt(
                        range_key(
                            (#[trigger] items@[j1]).0@,
                            items@[j1].1@,
                            items@[j1].2.millis,
                            items@[j1].3@,
                        ),
                        range_key(
                            (#[trigger] items@[j2]).0@,
                            items@[j2].1@,
                            items@[j2].2.millis,
                            items@[j2].3@,
                        ),
                    ),
                forall|jr: int|
                    0 <= jr < idx && parse_range_key((#[trigger] rows@[jr]).0@) is Some
                        && range_row_matches(
                        id@,
                        opt_type_view(t),
                        opt_dt_view(high),
                        parse_range_key(rows@[jr].0@).unwrap(),
                    ) ==> exists|j: int|
                        0 <= j < items@.len() && Some(range_item_view(#[trigger] items@[j]))
                            == parse_range_key(rows@[jr].0@),
            decreases n - idx,
        {
            let ghost items0 = items@;
            let row_key = &rows[idx].0;
            match decode_range_key(row_key) {
                Some((f, tt2, d, s)) => {
                    proof {
                        lemma_parse_range_key_recompose(rows@[idx as int].0@);
                        match t {
                            Some(tfil) => {
                                lemma_range_prefix_determines(rows@[idx as int].0@, id@, tfil@);
                            },
                            None => {
                                assert(id@.len() == 16);
                                assert(f@ == id@) by {
                                    assert(id@ =~= rows@[idx as int].0@.subrange(0, 16));
                                }
                            },
                        }
                    }
                    let keep = match high {
                        Some(h) => d.millis <= h.millis,
                        None => true,
                    };
                    if keep {
                        items.push((f, tt2, d, s));
                        proof {
                            assert(forall|q: int|
                                0 <= q < items0.len() ==> #[trigger] items@[q] == items0[q]);
                            assert(items@[items@.len() - 1] == (f, tt2, d, s));
                            assert(rows@[idx as int].0@ == range_key(f@, tt2@, d.millis, s@));
                            assert forall|j: int| 0 <= j < items@.len() implies exists|jr: int|
                                0 <= jr < idx + 1 && rows@[jr].0@ == range_key(
                                    (#[trigger] items@[j]).0@,
                                    items@[j].1@,
                                    items@[j].2.millis,
                                    items@[j].3@,
                                ) by {
                                if j < items0.len() {
                                    let jr = choose|jr: int|
                                        0 <= jr < idx && rows@[jr].0@ == range_key(
                                            (#[trigger] items0[j]).0@,
                                            items0[j].1@,
                                            items0[j].2.millis,
                                            items0[j].3@,
                                        );
                                    assert(rows@[jr].0@ == range_key(
                                        items@[j].0@,
                                        items@[j].1@,
                                        items@[j].2.millis,
                                        items@[j].3@,
                                    ));
                                } else {
                                    assert(rows@[idx as int].0@ == range_key(
                                        items@[j].0@,
                                        items@[j].1@,
                                        items@[j].2.millis,
                                        items@[j].3@,
                                    ));
                                }
                            }
                            assert forall|j1: int, j2: int|
                                0 <= j1 < j2 < items@.len() implies lex_lt(
                                range_key(
                                    (#[trigger] items@[j1]).0@,
                                    items@[j1].1@,
                                    items@[j1].2.millis,
                                    items@[j1].3@,
                                ),
                                range_key(
                                    (#[trigger] items@[j2]).0@,
                                    items@[j2].1@,
                                    items@[j2].2.millis,
                                    items@[j2].3@,
                                ),
                            ) by {
                                if j2 == items@.len() - 1 {
                                    let jr = choose|jr: int|
                                        0 <= jr < idx && rows@[jr].0@ == range_key(
                                            (#[trigger] items0[j1]).0@,
                                            items0[j1].1@,
                                            items0[j1].2.millis,
                                            items0[j1].3@,
                                        );
                                    assert(lex_lt(rows@[jr].0@, rows@[idx as int].0@));
                                }
                            }
                        }
                    }
                },
                None => {
                    proof {
                        assert(m.contains_key(rows@[idx as int].0@));
                        assert(id@.len() == 16);
                        assert(id@.is_prefix_of(rows@[idx as int].0@)) by {
                            match t {
                                Some(tfil) => {
                                    let p = range_prefix(id@, tfil@);
                                    let kk = rows@[idx as int].0@;
                                    assert(p =~= kk.subrange(0, p.len() as int));
                                    assert forall|q: int| 0 <= q < 16 implies kk[q] == id@[q] by {
                                        assert(kk.subrange(0, p.len() as int)[q] == kk[q]);
                                        assert(p[q] == id@[q]);
                                    }
                                    assert(id@ =~= kk.subrange(0, 16));
                                },
                                None => {
                                },
                            }
                        }
                    }
                    return Err(Error::SchemaViolation);
                },
            }
            proof {
                assert forall|jr: int|
                    0 <= jr < idx + 1 && parse_range_key((#[trigger] rows@[jr]).0@) is Some
                        && range_row_matches(
                        id@,
                        opt_type_view(t),
                        opt_dt_view(high),
                        parse_range_key(rows@[jr].0@).unwrap(),
                    ) implies exists|j: int|
                    0 <= j < items@.len() && Some(range_item_view(#[trigger] items@[j]))
                        == parse_range_key(rows@[jr].0@) by {
                    if jr < idx {
                        let j = choose|j: int|
                            0 <= j < items0.len() && Some(range_item_view(#[trigger] items0[j]))
                                == parse_range_key(rows@[jr].0@);
                        assert(items@[j] == items0[j]);
                    } else {
                        assert(Some(range_item_view(items@[items@.len() - 1]))
                            == parse_range_key(rows@[jr].0@));
                    }
                }
            }
            idx += 1;
        }
        proof {
            assert forall|k: Seq<u8>|
                store@.cf(self.cf).contains_key(k) && parse_range_key(k) is Some
                    && range_row_matches(
                    id@,
                    opt_type_view(t),
                    opt_dt_view(high),
                    parse_range_key(k).unwrap(),
                ) implies exists|j: int|
                0 <= j < items@.len() && Some(range_item_view(#[trigger] items@[j]))
                    == parse_range_key(k) by {
                let row = parse_range_key(k).unwrap();
                lemma_parse_range_key_recompose(k);
                assert(prefix@.is_prefix_of(k)) by {
                    match t {
                        Some(tfil) => {
                            assert(k =~= range_prefix(id@, tfil@) + (be_bytes(
                                row.2 as nat,
                                8,
                            ) + row.3));
                            assert(k.subrange(0, prefix@.len() as int) =~= prefix@);
                        },
                        None => {
                            assert(k.subrange(0, 16) =~= id@);
                        },
                    }
                }
                let jr = choose|jr: int| 0 <= jr < rows@.len() && (#[trigger] rows@[jr]).0@ == k;
            }
            assert(range_rows_complete(
                store@.cf(self.cf),
                id@,
                opt_type_view(t),
                opt_dt_view(high),
                items@,
            ));
            assert forall|j1: int, j2: int|
                0 <= j1 < j2 < items@.len() implies range_item_view(#[trigger] items@[j1])
                != range_item_view(#[trigger] items@[j2]) by {
                if range_item_view(items@[j1]) == range_item_view(items@[j2]) {
                    assert(range_key(items@[j1].0@, items@[j1].1@, items@[j1].2.millis, items@[
                        j1].3@) == range_key(
                        items@[j2].0@,
                        items@[j2].1@,
                        items@[j2].2.millis,
                        items@[j2].3@,
                    ));
                    lemma_lex_irrefl(range_key(
                        items@[j1].0@,
                        items@[j1].1@,
                        items@[j1].2.millis,
                        items@[j1].3@,
                    ));
                }
            }
        }
        match t {
            None => Ok(items),
            Some(_) => {
                let ghost asc = items@;
                let mut rev: Vec<(Id, Type, Datetime, Id)> = Vec::new();
                proof {
                    assert(items@ =~= asc.take(items@.len() as int));
                }
                while items.len() > 0
                    invariant
                        items@ == asc.take(items@.len() as int),
                        rev@.len() + items@.len() == asc.len(),
                        forall|j: int|
                            0 <= j < rev@.len() ==> #[trigger] rev@[j] == asc[asc.len() - 1 - j],
                    decreases items@.len(),
                {
                    let ghost items_before = items@;
                    if let Some(x) = items.pop() {
                        proof {
                            assert(x == items_before[items_before.len() - 1]);
                            assert(items_before[items_before.len() - 1] == asc[items_before.len()
                                - 1]);
                            assert(items@ =~= asc.take(items@.len() as int));
                        }
                        rev.push(x);
                    }
                }
                proof {
                    assert(rev@.len() == asc.len());
                    assert forall|j: int| 0 <= j < rev@.len() implies range_row_matches(
                        id@,
                        opt_type_view(t),
                        opt_dt_view(high),
                        range_item_view(#[trigger] rev@[j]),
                    ) && store@.cf(self.cf).contains_key(range_key(
                        rev@[j].0@,
                        rev@[j].1@,
                        rev@[j].2.millis,
                        rev@[j].3@,
                    )) && valid_type(rev@[j].1@) by {
                        assert(rev@[j] == asc[asc.len() - 1 - j]);
                    }
                    assert forall|k: Seq<u8>|
                        store@.cf(self.cf).contains_key(k) && parse_range_key(k) is Some
                            && range_row_matches(
                            id@,
                            opt_type_view(t),
                            opt_dt_view(high),
                            parse_range_key(k).unwrap(),
                        ) implies exists|j: int|
                        0 <= j < rev@.len() && Some(range_item_view(#[trigger] rev@[j]))
                            == parse_range_key(k) by {
                        let ja = choose|ja: int|
                            0 <= ja < asc.len() && Some(range_item_view(#[trigger] asc[ja]))
                                == parse_range_key(k);
                        assert(rev@[asc.len() - 1 - ja] == asc[ja]);
                    }
                    assert(range_rows_complete(
                        store@.cf(self.cf),
                        id@,
                        opt_type_view(t),
                        opt_dt_view(high),
                        rev@,
                    ));
                    assert forall|j1: int, j2: int|
                        0 <= j1 < j2 < rev@.len() implies lex_lt(
                        range_key(
                            (#[trigger] rev@[j2]).0@,
                            rev@[j2].1@,
                            rev@[j2].2.millis,
                            rev@[j2].3@,
                        ),
                        range_key(
                            (#[trigger] rev@[j1]).0@,
                            rev@[j1].1@,
                            rev@[j1].2.millis,
                            rev@[j1].3@,
                        ),
                    ) by {
                        assert(rev@[j1] == asc[asc.len() - 1 - j1]);
                        assert(rev@[j2] == asc[asc.len() - 1 - j2]);
                    }
                    assert forall|j1: int, j2: int|
                        0 <= j1 < j2 < rev@.len() implies (#[trigger] rev@[j2]).2.millis <= (
                    #[trigger] rev@[j1]).2.millis by {
                        assert(id@.len() == 16);
                        lemma_range_key_order(
                            rev@[j2].0@,
                            rev@[j2].1@,
                            rev@[j2].2.millis,
                            rev@[j2].3@,
                            rev@[j1].0@,
                            rev@[j1].1@,
                            rev@[j1].2.millis,
                            rev@[j1].3@,
                        );
                        lemma_lex_irrefl(rev@[j2].0@);
                        lemma_lex_irrefl(rev@[j2].1@);
                    }
                    assert forall|j1: int, j2: int|
                        0 <= j1 < j2 < rev@.len() implies range_item_view(#[trigger] rev@[j1])
                        != range_item_view(#[trigger] rev@[j2]) by {
                        assert(rev@[j1] == asc[asc.len() - 1 - j1]);
                        assert(rev@[j2] == asc[asc.len() - 1 - j2]);
                    }
                }
                Ok(rev)
            },
        }
    }
}

// ---------------------------------------------------------------------------
// Property managers
// ---------------------------------------------------------------------------

/// JSON properties of vertices, keyed `(vertex, name)`.
pub struct VertexPropertyManager {}

impl VertexPropertyManager {
    pub fn new() -> VertexPropertyManager {
        VertexPropertyManager {  }
    }

    /// The property's JSON value, if the row exists and parses.
    pub fn get(&self, store: &MemStore, vertex_id: &Id, name: &Vec<u8>) -> (r: Result<
        Option<serde_json::Value>,
        Error,
    >)
        requires
            store.wf(),
        ensures
            ({
                let m = store@.cf(Cf::VertexProperties);
                let k = vertex_prop_key(vertex_id@, name@);
                &&& (r matches Ok(ov) ==> (m.contains_key(k) <==> ov is Some))
                &&& (r matches Ok(ov) ==> (ov matches Some(v) ==> json_parse_of(m[k]) == Some(v)
                    && (forall|w: serde_json::Value| m[k] == json_bytes_of(w) ==> v == w)))
                &&& ((m.contains_key(k) && json_parse_of(m[k]) is Some) ==> r is Ok)
                &&& (r matches Err(e) ==> e == Error::JsonDecode && m.contains_key(k)
                    && json_parse_of(m[k]) is None)
            }),
    {
        let key = build_vertex_prop_key(vertex_id, name);
        match store.get(Cf::VertexProperties, &key) {
            Some(bytes) => match json_from_bytes(&bytes) {
                Ok(v) => Ok(Some(v)),
                Err(e) => Err(e),
            },
            None => Ok(None),
        }
    }

    /// Stage an upsert of one property.
    pub fn set(
        &self,
        batch: &mut WriteBatch,
        vertex_id: &Id,
        name: &Vec<u8>,
        value: &serde_json::Value,
    ) -> (r: Result<(), Error>)
        ensures
            r is Ok,
            final(batch)@ == old(batch)@.push(
                put_op(
                    Cf::VertexProperties,
                    vertex_prop_key(vertex_id@, name@),
                    json_bytes_of(*value),
                ),
            ),
    {
        let bytes = match json_to_bytes(value) {
            Ok(b) => b,
            Err(e) => {
                return Err(e);
            },
        };
        let key = build_vertex_prop_key(vertex_id, name);
        batch.stage_put(Cf::VertexProperties, key, bytes);
        Ok(())
    }

    /// Stage the removal of one property.
    pub fn delete(&self, batch: &mut WriteBatch, vertex_id: &Id, name: &Vec<u8>) -> (r: Result<
        (),
        Error,
    >)
        ensures
            r is Ok,
            final(batch)@ == old(batch)@.push(
                del_op(Cf::VertexProperties, vertex_prop_key(vertex_id@, name@)),
            ),
    {
        let key = build_vertex_prop_key(vertex_id, name);
        batch.stage_delete(Cf::VertexProperties, key);
        Ok(())
    }

    /// All properties of one vertex, as `((vertex, name), value)` items;
    /// a value that does not parse surfaces as that row's own error, and
    /// iteration continues past it.
    #[verifier::rlimit(50)]
    pub fn iterate_for_owner(&self, store: &MemStore, vertex_id: &Id) -> (r: Vec<
        ((Id, Vec<u8>), Result<serde_json::Value, Error>),
    >)
        requires
            store.wf(),
        ensures
            forall|j: int|
                0 <= j < r@.len() ==> ((#[trigger] r@[j]).0.0@ == vertex_id@ && store@.cf(
                    Cf::VertexProperties,
                ).contains_key(vertex_prop_key(vertex_id@, r@[j].0.1@)) && (match r@[j].1 {
                    Ok(v) => json_parse_of(
                        store@.cf(Cf::VertexProperties)[vertex_prop_key(vertex_id@, r@[j].0.1@)],
                    ) == Some(v) && (forall|w: serde_json::Value|
                        store@.cf(Cf::VertexProperties)[vertex_prop_key(vertex_id@, r@[j].0.1@)]
                            == json_bytes_of(w) ==> v == w),
                    Err(e) => e == Error::JsonDecode && json_parse_of(
                        store@.cf(Cf::VertexProperties)[vertex_prop_key(vertex_id@, r@[j].0.1@)],
                    ) is None,
                })),
            vprop_names_complete(store@.cf(Cf::VertexProperties), vertex_id@, r@),
            forall|j1: int, j2: int|
                0 <= j1 < j2 < r@.len() ==> lex_lt(
                    (#[trigger] r@[j1]).0.1@,
                    (#[trigger] r@[j2]).0.1@,
                ),
    {
        let prefix = build_vertex_key(vertex_id);
        let rows = store.scan_prefix(Cf::VertexProperties, &prefix);
        let ghost m = store@.cf(Cf::VertexProperties);
        let mut items: Vec<((Id, Vec<u8>), Result<serde_json::Value, Error>)> = Vec::new();
        let n = rows.len();
        let mut idx: usize = 0;
        while idx < n
            invariant
                store.wf(),
                m == store@.cf(Cf::VertexProperties),
                n == rows@.len(),
                idx <= n,
                prefix@ == vertex_id@,
                forall|j: int|
                    0 <= j < rows@.len() ==> vertex_id@.is_prefix_of((#[trigger] rows@[j]).0@)
                        && m.contains_key(rows@[j].0@) && m[rows@[j].0@] == rows@[j].1@,
                forall|k: Seq<u8>|
                    m.contains_key(k) && vertex_id@.is_prefix_of(k) ==> exists|j: int|
                        0 <= j < rows@.len() && (#[trigger] rows@[j]).0@ == k,
                forall|j1: int, j2: int|
                    0 <= j1 < j2 < rows@.len() ==> lex_lt(
                        (#[trigger] rows@[j1]).0@,
                        (#[trigger] rows@[j2]).0@,
                    ),
                items@.len() == idx,
                forall|j: int|
                    0 <= j < idx ==> ((#[trigger] items@[j]).0.0@ == vertex_id@ && items@[j].0.1@
                        == rows@[j].0@.skip(16) && m.contains_key(
                        vertex_prop_key(vertex_id@, items@[j].0.1@),
                    ) && (match items@[j].1 {
                        Ok(v) => json_parse_of(m[vertex_prop_key(vertex_id@, items@[j].0.1@)])
                            == Some(v) && (forall|w: serde_json::Value|
                            m[vertex_prop_key(vertex_id@, items@[j].0.1@)] == json_bytes_of(w)
                                ==> v == w),
                        Err(e) => e == Error::JsonDecode && json_parse_of(
                            m[vertex_prop_key(vertex_id@, items@[j].0.1@)],
                        ) is None,
                    })),
            decreases n - idx,
        {
            let owner = Id { bytes: copy_id_bytes(vertex_id) };
            let name = crate::codec::read_rest(&rows[idx].0, 16);
            proof {
                lemma_vertex_prop_prefix_parse(rows@[idx as int].0@, vertex_id@);
                assert(vertex_prop_key(vertex_id@, rows@[idx as int].0@.skip(16)) =~= rows@[
                    idx as int].0@);
            }
            let value = json_from_bytes(&rows[idx].1);
            items.push(((owner, name), value));
            idx += 1;
        }
        proof {
            assert forall|nm: Seq<u8>|
                store@.cf(Cf::VertexProperties).contains_key(
                    #[trigger] vertex_prop_key(vertex_id@, nm),
                ) implies exists|j: int|
                0 <= j < items@.len() && (#[trigger] items@[j]).0.1@ == nm by {
                let k0 = vertex_prop_key(vertex_id@, nm);
                assert(vertex_id@.is_prefix_of(k0)) by {
                    assert(k0.subrange(0, 16) =~= vertex_id@);
                }
                let j = choose|j: int| 0 <= j < rows@.len() && (#[trigger] rows@[j]).0@ == k0;
                assert(k0.skip(16) =~= nm);
                assert(items@[j].0.1@ == nm);
            }
            assert(vprop_names_complete(store@.cf(Cf::VertexProperties), vertex_id@, items@));
            assert forall|j1: int, j2: int| 0 <= j1 < j2 < items@.len() implies lex_lt(
                (#[trigger] items@[j1]).0.1@,
                (#[trigger] items@[j2]).0.1@,
            ) by {
                let n1 = items@[j1].0.1@;
                let n2 = items@[j2].0.1@;
                assert(rows@[j1].0@ =~= vertex_id@ + n1);
                assert(rows@[j2].0@ =~= vertex_id@ + n2);
                lemma_lex_eq_head(vertex_id@, n1, n2);
            }
        }
        items
    }
}

/// A fresh copy of an identifier's bytes.
fn copy_id_bytes(id: &Id) -> (r: [u8; 16])
    ensures
        r@ == id@,
{
    id.bytes
}

/// JSON properties of edges, keyed `(outbound, type, inbound, name)`.
pub struct EdgePropertyManager {}

impl EdgePropertyManager {
    pub fn new() -> EdgePropertyManager {
        EdgePropertyManager {  }
    }

    /// The property's JSON value, if the row exists and parses.
    pub fn get(
        &self,
        store: &MemStore,
        outbound_id: &Id,
        t: &Type,
        inbound_id: &Id,
        name: &Vec<u8>,
    ) -> (r: Result<Option<serde_json::Value>, Error>)
        requires
            store.wf(),
            valid_type(t@),
        ensures
            ({
                let m = store@.cf(Cf::EdgeProperties);
                let k = edge_prop_key(outbound_id@, t@, inbound_id@, name@);
                &&& (r matches Ok(ov) ==> (m.contains_key(k) <==> ov is Some))
                &&& (r matches Ok(ov) ==> (ov matches Some(v) ==> json_parse_of(m[k]) == Some(v)
                    && (forall|w: serde_json::Value| m[k] == json_bytes_of(w) ==> v == w)))
                &&& ((m.contains_key(k) && json_parse_of(m[k]) is Some) ==> r is Ok)
                &&& (r matches Err(e) ==> e == Error::JsonDecode && m.contains_key(k)
                    && json_parse_of(m[k]) is None)
            }),
    {
        let key = build_edge_prop_key(outbound_id, t, inbound_id, name);
        match store.get(Cf::EdgeProperties, &key) {
            Some(bytes) => match json_from_bytes(&bytes) {
                Ok(v) => Ok(Some(v)),
                Err(e) => Err(e),
            },
            None => Ok(None),
        }
    }

    /// Stage an upsert of one property.
    pub fn set(
        &self,
        batch: &mut WriteBatch,
        outbound_id: &Id,
        t: &Type,
        inbound_id: &Id,
        name: &Vec<u8>,
        value: &serde_json::Value,
    ) -> (r: Result<(), Error>)
        requires
            valid_type(t@),
        ensures
            r is Ok,
            final(batch)@ == old(batch)@.push(
                put_op(
                    Cf::EdgeProperties,
                    edge_prop_key(outbound_id@, t@, inbound_id@, name@),
                    json_bytes_of(*value),
                ),
            ),
    {
        let bytes = match json_to_bytes(value) {
            Ok(b) => b,
            Err(e) => {
                return Err(e);
            },
        };
        let key = build_edge_prop_key(outbound_id, t, inbound_id, name);
        batch.stage_put(Cf::EdgeProperties, key, bytes);
        Ok(())
    }

    /// Stage the removal of one property.
    pub fn delete(
        &self,
        batch: &mut WriteBatch,
        outbound_id: &Id,
        t: &Type,
        inbound_id: &Id,
        name: &Vec<u8>,
    ) -> (r: Result<(), Error>)
        requires
            valid_type(t@),
        ensures
            r is Ok,
            final(batch)@ == old(batch)@.push(
                del_op(Cf::EdgeProperties, edge_prop_key(outbound_id@, t@, inbound_id@, name@)),
            ),
    {
        let key = build_edge_prop_key(outbound_id, t, inbound_id, name);
        batch.stage_delete(Cf::EdgeProperties, key);
        Ok(())
    }

    /// All properties of one edge, as `((outbound, type, inbound, name),
    /// value)` items; a value that does not parse surfaces as that row's
    /// own error, and iteration continues past it.
    #[verifier::rlimit(50)]
    pub fn iterate_for_owner(
        &self,
        store: &MemStore,
        outbound_id: &Id,
        t: &Type,
        inbound_id: &Id,
    ) -> (r: Vec<((Id, Type, Id, Vec<u8>), Result<serde_json::Value, Error>)>)
        requires
            store.wf(),
            valid_type(t@),
        ensures
            forall|j: int|
                0 <= j < r@.len() ==> ((#[trigger] r@[j]).0.0@ == outbound_id@ && r@[j].0.1@ == t@
                    && r@[j].0.2@ == inbound_id@ && store@.cf(Cf::EdgeProperties).contains_key(
                    edge_prop_key(outbound_id@, t@, inbound_id@, r@[j].0.3@),
                ) && (match r@[j].1 {
                    Ok(v) => json_parse_of(
                        store@.cf(Cf::EdgeProperties)[edge_prop_key(
                            outbound_id@,
                            t@,
                            inbound_id@,
                            r@[j].0.3@,
                        )],
                    ) == Some(v) && (forall|w: serde_json::Value|
                        store@.cf(Cf::EdgeProperties)[edge_prop_key(
                            outbound_id@,
                            t@,
                            inbound_id@,
                            r@[j].0.3@,
                        )] == json_bytes_of(w) ==> v == w),
                    Err(e) => e == Error::JsonDecode && json_parse_of(
                        store@.cf(Cf::EdgeProperties)[edge_prop_key(
                            outbound_id@,
                            t@,
                            inbound_id@,
                            r@[j].0.3@,
                        )],
                    ) is None,
                })),
            eprop_names_complete(
                store@.cf(Cf::EdgeProperties),
                outbound_id@,
                t@,
                inbound_id@,
                r@,
            ),
            forall|j1: int, j2: int|
                0 <= j1 < j2 < r@.len() ==> lex_lt(
                    (#[trigger] r@[j1]).0.3@,
                    (#[trigger] r@[j2]).0.3@,
                ),
    {
        let prefix = build_edge_key(outbound_id, t, inbound_id);
        let ghost plen = prefix@.len() as int;
        let rows = store.scan_prefix(Cf::EdgeProperties, &prefix);
        let ghost m = store@.cf(Cf::EdgeProperties);
        let mut items: Vec<((Id, Type, Id, Vec<u8>), Result<serde_json::Value, Error>)> =
            Vec::new();
        let n = rows.len();
        let mut idx: usize = 0;
        while idx < n
            invariant
                store.wf(),
                valid_type(t@),
                m == store@.cf(Cf::EdgeProperties),
                n == rows@.len(),
                idx <= n,
                prefix@ == edge_key(outbound_id@, t@, inbound_id@),
                plen == prefix@.len(),
                forall|j: int|
                    0 <= j < rows@.len() ==> prefix@.is_prefix_of((#[trigger] rows@[j]).0@)
                        && m.contains_key(rows@[j].0@) && m[rows@[j].0@] == rows@[j].1@,
                forall|k: Seq<u8>|
                    m.contains_key(k) && prefix@.is_prefix_of(k) ==> exists|j: int|
                        0 <= j < rows@.len() && (#[trigger] rows@[j]).0@ == k,
                forall|j1: int, j2: int|
                    0 <= j1 < j2 < rows@.len() ==> lex_lt(
                        (#[trigger] rows@[j1]).0@,
                        (#[trigger] rows@[j2]).0@,
                    ),
                items@.len() == idx,
                forall|j: int|
                    0 <= j < idx ==> ((#[trigger] items@[j]).0.0@ == outbound_id@ && items@[j].0.1@
                        == t@ && items@[j].0.2@ == inbound_id@ && items@[j].0.3@ == rows@[
                        j].0@.skip(plen) && m.contains_key(
                        edge_prop_key(outbound_id@, t@, inbound_id@, items@[j].0.3@),
                    ) && (match items@[j].1 {
                        Ok(v) => json_parse_of(
                            m[edge_prop_key(outbound_id@, t@, inbound_id@, items@[j].0.3@)],
                        ) == Some(v) && (forall|w: serde_json::Value|
                            m[edge_prop_key(outbound_id@, t@, inbound_id@, items@[j].0.3@)]
                                == json_bytes_of(w) ==> v == w),
                        Err(e) => e == Error::JsonDecode && json_parse_of(
                            m[edge_prop_key(outbound_id@, t@, inbound_id@, items@[j].0.3@)],
                        ) is None,
                    })),
            decreases n - idx,
        {
            let o2 = Id { bytes: copy_id_bytes(outbound_id) };
            let t2 = Type { bytes: crate::store::copy_bytes(&t.bytes) };
            let i2 = Id { bytes: copy_id_bytes(inbound_id) };
            let name = crate::codec::read_rest(&rows[idx].0, prefix.len());
            proof {
                lemma_parse_eq_means_key_eq(
                    rows@[idx as int].0@,
                    outbound_id@,
                    t@,
                    inbound_id@,
                    plen,
                );
            }
            let value = json_from_bytes(&rows[idx].1);
            items.push(((o2, t2, i2, name), value));
            idx += 1;
        }
        proof {
            assert forall|nm: Seq<u8>|
                store@.cf(Cf::EdgeProperties).contains_key(
                    #[trigger] edge_prop_key(outbound_id@, t@, inbound_id@, nm),
                ) implies exists|j: int|
                0 <= j < items@.len() && (#[trigger] items@[j]).0.3@ == nm by {
                let k0 = edge_prop_key(outbound_id@, t@, inbound_id@, nm);
                assert(prefix_of_edge(outbound_id@, t@, inbound_id@, k0)) by {
                    assert(k0.subrange(0, plen) =~= edge_key(outbound_id@, t@, inbound_id@));
                }
                let j = choose|j: int| 0 <= j < rows@.len() && (#[trigger] rows@[j]).0@ == k0;
                assert(k0.skip(plen) =~= nm);
                assert(items@[j].0.3@ == nm);
            }
            assert(eprop_names_complete(
                store@.cf(Cf::EdgeProperties),
                outbound_id@,
                t@,
                inbound_id@,
                items@,
            ));
            assert forall|j1: int, j2: int| 0 <= j1 < j2 < items@.len() implies lex_lt(
                (#[trigger] items@[j1]).0.3@,
                (#[trigger] items@[j2]).0.3@,
            ) by {
                let n1 = items@[j1].0.3@;
                let n2 = items@[j2].0.3@;
                assert(rows@[j1].0@ =~= edge_key(outbound_id@, t@, inbound_id@) + n1);
                assert(rows@[j2].0@ =~= edge_key(outbound_id@, t@, inbound_id@) + n2);
                lemma_lex_eq_head(edge_key(outbound_id@, t@, inbound_id@), n1, n2);
            }
        }
        items
    }
}

/// Whether an edge's key prefixes `k`.
pub open spec fn prefix_of_edge(o: Seq<u8>, t: Seq<u8>, i: Seq<u8>, k: Seq<u8>) -> bool {
    edge_key(o, t, i).is_prefix_of(k)
}

} // verus!
