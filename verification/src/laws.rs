//! The global laws of the store: the edge/range mirror invariant, the
//! upsert behaviour of edge writes, and orphan freedom after a vertex
//! cascade. Each is proved against the staged-operation model that the
//! managers' contracts produce and `commit` applies.

use vstd::prelude::*;

use crate::codec::{
    be_bytes, edge_key, edge_prop_key, lemma_be_len, lemma_edge_key_injective,
    lemma_edge_prop_key_injective, lemma_from_be_be, lemma_pow256_8, lemma_range_key_injective,
    lemma_vertex_prop_key_injective, range_key, vertex_key, vertex_prop_key,
};
use crate::types::valid_type;
use crate::managers::{
    edge_delete_ops, edge_removal_staged, edge_set_ops, edge_stored_dt, vertex_delete_staged,
    vertex_scoped_op,
};
use crate::store::{
    apply_op, apply_ops, del_op, lemma_apply_all_deletes, ops_delete_key, put_op, Cf, StoreView,
};

verus! {

/// Whether the forward range family holds the row of edge `(o, t, i)` at
/// instant `d`.
pub open spec fn has_fwd(s: StoreView, o: Seq<u8>, t: Seq<u8>, d: u64, i: Seq<u8>) -> bool {
    s.cf(Cf::EdgeRanges).contains_key(range_key(o, t, d, i))
}

/// Whether the reversed range family holds the row of edge `(o, t, i)` at
/// instant `d`.
pub open spec fn has_rev(s: StoreView, o: Seq<u8>, t: Seq<u8>, d: u64, i: Seq<u8>) -> bool {
    s.cf(Cf::ReversedEdgeRanges).contains_key(range_key(i, t, d, o))
}

/// The edge/range mirror: for every edge triple, a range row at instant
/// `d` exists in either family exactly when the edge row stores `d`. In
/// particular each stored edge has both of its range rows, and no stale
/// range row of any edge exists.
pub open spec fn edge_mirror_consistent(s: StoreView) -> bool {
    forall|o: Seq<u8>, t: Seq<u8>, d: u64, i: Seq<u8>|
        #![trigger range_key(o, t, d, i)]
        o.len() == 16 && valid_type(t) && i.len() == 16 ==> ((has_fwd(s, o, t, d, i)
            <==> edge_stored_dt(s, o, t, i) == Some(d)) && (has_rev(s, o, t, d, i)
            <==> edge_stored_dt(s, o, t, i) == Some(d)))
}

/// One append of an operation to a batch.
proof fn lemma_apply_push(
    s: StoreView,
    ops: Seq<(Cf, bool, Seq<u8>, Seq<u8>)>,
    x: (Cf, bool, Seq<u8>, Seq<u8>),
)
    ensures
        apply_ops(s, ops.push(x)) == apply_op(apply_ops(s, ops), x),
{
    assert(ops.push(x).drop_last() =~= ops);
    assert(ops.push(x).last() == x);
}

/// The pointwise effect of an edge upsert's staged operations on each
/// column family.
proof fn lemma_edge_set_ops_effect(
    s: StoreView,
    o: Seq<u8>,
    t: Seq<u8>,
    i: Seq<u8>,
    d: u64,
    prior: Option<u64>,
)
    ensures
        ({
            let s2 = apply_ops(s, edge_set_ops(o, t, i, d, prior));
            &&& s2.cf(Cf::Edges) == s.cf(Cf::Edges).insert(
                edge_key(o, t, i),
                be_bytes(d as nat, 8),
            )
            &&& s2.cf(Cf::EdgeRanges) == (match prior {
                None => s.cf(Cf::EdgeRanges).insert(range_key(o, t, d, i), Seq::<u8>::empty()),
                Some(p) => s.cf(Cf::EdgeRanges).remove(range_key(o, t, p, i)).insert(
                    range_key(o, t, d, i),
                    Seq::<u8>::empty(),
                ),
            })
            &&& s2.cf(Cf::ReversedEdgeRanges) == (match prior {
                None => s.cf(Cf::ReversedEdgeRanges).insert(
                    range_key(i, t, d, o),
                    Seq::<u8>::empty(),
                ),
                Some(p) => s.cf(Cf::ReversedEdgeRanges).remove(range_key(i, t, p, o)).insert(
                    range_key(i, t, d, o),
                    Seq::<u8>::empty(),
                ),
            })
            &&& s2.cf(Cf::Vertices) == s.cf(Cf::Vertices)
            &&& s2.cf(Cf::VertexProperties) == s.cf(Cf::VertexProperties)
            &&& s2.cf(Cf::EdgeProperties) == s.cf(Cf::EdgeProperties)
        }),
{
    let a = put_op(Cf::Edges, edge_key(o, t, i), be_bytes(d as nat, 8));
    let b = put_op(Cf::EdgeRanges, range_key(o, t, d, i), Seq::<u8>::empty());
    let c = put_op(Cf::ReversedEdgeRanges, range_key(i, t, d, o), Seq::<u8>::empty());
    let e = Seq::<(Cf, bool, Seq<u8>, Seq<u8>)>::empty();
    match prior {
        None => {
            let q1 = e.push(a);
            let q2 = q1.push(b);
            let q3 = q2.push(c);
            assert(edge_set_ops(o, t, i, d, prior) =~= q3);
            assert(apply_ops(s, e) == s);
            lemma_apply_push(s, e, a);
            lemma_apply_push(s, q1, b);
            lemma_apply_push(s, q2, c);
        },
        Some(p) => {
            let x = del_op(Cf::EdgeRanges, range_key(o, t, p, i));
            let y = del_op(Cf::ReversedEdgeRanges, range_key(i, t, p, o));
            let q1 = e.push(x);
            let q2 = q1.push(y);
            let q3 = q2.push(a);
            let q4 = q3.push(b);
            let q5 = q4.push(c);
            assert(edge_set_ops(o, t, i, d, prior) =~= q5);
            assert(apply_ops(s, e) == s);
            lemma_apply_push(s, e, x);
            lemma_apply_push(s, q1, y);
            lemma_apply_push(s, q2, a);
            lemma_apply_push(s, q3, b);
            lemma_apply_push(s, q4, c);
        },
    }
}

/// Law (edge/range mirror under upsert): committing an edge upsert staged
/// against the edge's current stored instant keeps the store mirror
/// consistent, and afterwards the edge row stores the new instant.
pub proof fn lemma_edge_set_preserves_mirror(
    s: StoreView,
    o: Seq<u8>,
    t: Seq<u8>,
    i: Seq<u8>,
    d: u64,
)
    requires
        o.len() == 16,
        valid_type(t),
        i.len() == 16,
        edge_mirror_consistent(s),
    ensures
        edge_mirror_consistent(
            apply_ops(s, edge_set_ops(o, t, i, d, edge_stored_dt(s, o, t, i))),
        ),
        edge_stored_dt(apply_ops(s, edge_set_ops(o, t, i, d, edge_stored_dt(s, o, t, i))), o, t, i)
            == Some(d),
{
    let prior = edge_stored_dt(s, o, t, i);
    let s2 = apply_ops(s, edge_set_ops(o, t, i, d, prior));
    lemma_edge_set_ops_effect(s, o, t, i, d, prior);
    lemma_be_len(d as nat, 8);
    lemma_pow256_8();
    lemma_from_be_be(d as nat, 8);
    assert(edge_stored_dt(s2, o, t, i) == Some(d));
    assert forall|o2: Seq<u8>, t2: Seq<u8>, d2: u64, i2: Seq<u8>|
        #![trigger range_key(o2, t2, d2, i2)]
        o2.len() == 16 && valid_type(t2) && i2.len() == 16 implies ((has_fwd(s2, o2, t2, d2, i2)
        <==> edge_stored_dt(s2, o2, t2, i2) == Some(d2)) && (has_rev(s2, o2, t2, d2, i2)
        <==> edge_stored_dt(s2, o2, t2, i2) == Some(d2))) by {
        if o2 == o && t2 == t && i2 == i {
            if d2 != d {
                assert(range_key(o, t, d2, i) != range_key(o, t, d, i)) by {
                    if range_key(o, t, d2, i) == range_key(o, t, d, i) {
                        lemma_range_key_injective(o, t, d2, i, o, t, d, i);
                    }
                }
                match prior {
                    Some(p) => if p != d2 {
                        assert(range_key(o, t, d2, i) != range_key(o, t, p, i)) by {
                            if range_key(o, t, d2, i) == range_key(o, t, p, i) {
                                lemma_range_key_injective(o, t, d2, i, o, t, p, i);
                            }
                        }
                        assert(has_fwd(s, o, t, d2, i) <==> edge_stored_dt(s, o, t, i) == Some(
                            d2,
                        ));
                    },
                    None => {
                    },
                }
                assert(range_key(i, t, d2, o) != range_key(i, t, d, o)) by {
                    if range_key(i, t, d2, o) == range_key(i, t, d, o) {
                        lemma_range_key_injective(i, t, d2, o, i, t, d, o);
                    }
                }
                match prior {
                    Some(p) => if p != d2 {
                        assert(range_key(i, t, d2, o) != range_key(i, t, p, o)) by {
                            if range_key(i, t, d2, o) == range_key(i, t, p, o) {
                                lemma_range_key_injective(i, t, d2, o, i, t, p, o);
                            }
                        }
                        assert(has_rev(s, o, t, d2, i) <==> edge_stored_dt(s, o, t, i) == Some(
                            d2,
                        ));
                    },
                    None => {
                    },
                }
            }
        } else {
            assert(edge_key(o2, t2, i2) != edge_key(o, t, i)) by {
                if edge_key(o2, t2, i2) == edge_key(o, t, i) {
                    lemma_edge_key_injective(o2, t2, i2, o, t, i);
                }
            }
            assert(range_key(o2, t2, d2, i2) != range_key(o, t, d, i)) by {
                if range_key(o2, t2, d2, i2) == range_key(o, t, d, i) {
                    lemma_range_key_injective(o2, t2, d2, i2, o, t, d, i);
                }
            }
            assert(range_key(i2, t2, d2, o2) != range_key(i, t, d, o)) by {
                if range_key(i2, t2, d2, o2) == range_key(i, t, d, o) {
                    lemma_range_key_injective(i2, t2, d2, o2, i, t, d, o);
                }
            }
            match prior {
                Some(p) => {
                    assert(range_key(o2, t2, d2, i2) != range_key(o, t, p, i)) by {
                        if range_key(o2, t2, d2, i2) == range_key(o, t, p, i) {
                            lemma_range_key_injective(o2, t2, d2, i2, o, t, p, i);
                        }
                    }
                    assert(range_key(i2, t2, d2, o2) != range_key(i, t, p, o)) by {
                        if range_key(i2, t2, d2, o2) == range_key(i, t, p, o) {
                            lemma_range_key_injective(i2, t2, d2, o2, i, t, p, o);
                        }
                    }
                },
                None => {
                },
            }
            assert(has_fwd(s, o2, t2, d2, i2) <==> edge_stored_dt(s, o2, t2, i2) == Some(d2));
            assert(has_rev(s, o2, t2, d2, i2) <==> edge_stored_dt(s, o2, t2, i2) == Some(d2));
            assert(edge_stored_dt(s2, o2, t2, i2) == edge_stored_dt(s, o2, t2, i2));
        }
    }
}

/// Law (edge-set upsert): two successive upserts of one edge, each staged
/// against the then-current stored instant, leave exactly one edge row,
/// holding the second instant, and range rows in both families at exactly
/// that instant and no other.
pub proof fn lemma_edge_set_upsert(
    s0: StoreView,
    o: Seq<u8>,
    t: Seq<u8>,
    i: Seq<u8>,
    d1: u64,
    d2: u64,
)
    requires
        o.len() == 16,
        valid_type(t),
        i.len() == 16,
        edge_mirror_consistent(s0),
    ensures
        ({
            let s1 = apply_ops(s0, edge_set_ops(o, t, i, d1, edge_stored_dt(s0, o, t, i)));
            let s2 = apply_ops(s1, edge_set_ops(o, t, i, d2, edge_stored_dt(s1, o, t, i)));
            &&& edge_stored_dt(s2, o, t, i) == Some(d2)
            &&& forall|d: u64| #[trigger] has_fwd(s2, o, t, d, i) <==> d == d2
            &&& forall|d: u64| #[trigger] has_rev(s2, o, t, d, i) <==> d == d2
        }),
{
    let s1 = apply_ops(s0, edge_set_ops(o, t, i, d1, edge_stored_dt(s0, o, t, i)));
    let s2 = apply_ops(s1, edge_set_ops(o, t, i, d2, edge_stored_dt(s1, o, t, i)));
    lemma_edge_set_preserves_mirror(s0, o, t, i, d1);
    lemma_edge_set_preserves_mirror(s1, o, t, i, d2);
    assert forall|d: u64| #[trigger] has_fwd(s2, o, t, d, i) <==> d == d2 by {
        assert(has_fwd(s2, o, t, d, i) <==> edge_stored_dt(s2, o, t, i) == Some(d));
    }
    assert forall|d: u64| #[trigger] has_rev(s2, o, t, d, i) <==> d == d2 by {
        assert(has_rev(s2, o, t, d, i) <==> edge_stored_dt(s2, o, t, i) == Some(d));
    }
}

/// Splitting a batch splits its application.
proof fn lemma_apply_concat(
    s: StoreView,
    a: Seq<(Cf, bool, Seq<u8>, Seq<u8>)>,
    b: Seq<(Cf, bool, Seq<u8>, Seq<u8>)>,
)
    ensures
        apply_ops(s, a + b) == apply_ops(apply_ops(s, a), b),
    decreases b.len(),
{
    if b.len() == 0 {
        assert(a + b =~= a);
    } else {
        assert((a + b).drop_last() =~= a + b.drop_last());
        assert((a + b).last() == b.last());
        lemma_apply_concat(s, a, b.drop_last());
    }
}

/// Operations confined to one family leave every other family unchanged.
proof fn lemma_apply_single_cf(
    s: StoreView,
    ops: Seq<(Cf, bool, Seq<u8>, Seq<u8>)>,
    cfx: Cf,
)
    requires
        forall|j: int| 0 <= j < ops.len() ==> (#[trigger] ops[j]).0 == cfx,
    ensures
        forall|c: Cf| c != cfx ==> #[trigger] apply_ops(s, ops).cf(c) == s.cf(c),
    decreases ops.len(),
{
    if ops.len() > 0 {
        assert(forall|j: int|
            0 <= j < ops.len() - 1 ==> (#[trigger] ops.drop_last()[j]) == ops[j]);
        lemma_apply_single_cf(s, ops.drop_last(), cfx);
        assert(ops[ops.len() - 1].0 == cfx);
        assert forall|c: Cf| c != cfx implies #[trigger] apply_ops(s, ops).cf(c) == s.cf(c) by {
            assert(apply_ops(s, ops) == apply_op(apply_ops(s, ops.drop_last()), ops.last()));
            assert(apply_ops(s, ops.drop_last()).cf(c) == s.cf(c));
            assert(apply_op(apply_ops(s, ops.drop_last()), ops.last()).cf(c) == apply_ops(
                s,
                ops.drop_last(),
            ).cf(c));
        }
    }
}

/// The pointwise effect of an edge removal's staged operations on the
/// three mirrored column families.
proof fn lemma_edge_delete_ops_effect(
    s: StoreView,
    o: Seq<u8>,
    t: Seq<u8>,
    i: Seq<u8>,
    d: u64,
    names: Seq<Seq<u8>>,
)
    ensures
        ({
            let s2 = apply_ops(s, edge_delete_ops(o, t, i, d, names));
            &&& s2.cf(Cf::Edges) == s.cf(Cf::Edges).remove(edge_key(o, t, i))
            &&& s2.cf(Cf::EdgeRanges) == s.cf(Cf::EdgeRanges).remove(range_key(o, t, d, i))
            &&& s2.cf(Cf::ReversedEdgeRanges) == s.cf(Cf::ReversedEdgeRanges).remove(
                range_key(i, t, d, o),
            )
        }),
{
    let head = seq![
        del_op(Cf::Edges, edge_key(o, t, i)),
        del_op(Cf::EdgeRanges, range_key(o, t, d, i)),
        del_op(Cf::ReversedEdgeRanges, range_key(i, t, d, o)),
    ];
    let tail = names.map_values(|n: Seq<u8>| del_op(Cf::EdgeProperties, edge_prop_key(o, t, i, n)));
    assert(edge_delete_ops(o, t, i, d, names) == head + tail);
    lemma_apply_concat(s, head, tail);
    let e = Seq::<(Cf, bool, Seq<u8>, Seq<u8>)>::empty();
    let q1 = e.push(head[0]);
    let q2 = q1.push(head[1]);
    let q3 = q2.push(head[2]);
    assert(head =~= q3);
    assert(apply_ops(s, e) == s);
    lemma_apply_push(s, e, head[0]);
    lemma_apply_push(s, q1, head[1]);
    lemma_apply_push(s, q2, head[2]);
    assert(forall|j: int|
        0 <= j < tail.len() ==> (#[trigger] tail[j]) == del_op(
            Cf::EdgeProperties,
            edge_prop_key(o, t, i, names[j]),
        ));
    lemma_apply_single_cf(apply_ops(s, head), tail, Cf::EdgeProperties);
    assert(apply_ops(s, edge_delete_ops(o, t, i, d, names)).cf(Cf::Edges) == apply_ops(
        s,
        head,
    ).cf(Cf::Edges));
    assert(apply_ops(s, edge_delete_ops(o, t, i, d, names)).cf(Cf::EdgeRanges) == apply_ops(
        s,
        head,
    ).cf(Cf::EdgeRanges));
    assert(apply_ops(s, edge_delete_ops(o, t, i, d, names)).cf(Cf::ReversedEdgeRanges)
        == apply_ops(s, head).cf(Cf::ReversedEdgeRanges));
}

/// Law (edge/range mirror under delete): committing an edge removal
/// staged at the edge's current stored instant keeps the store mirror
/// consistent, and afterwards the edge row is gone.
pub proof fn lemma_edge_delete_preserves_mirror(
    s: StoreView,
    o: Seq<u8>,
    t: Seq<u8>,
    i: Seq<u8>,
    d: u64,
    names: Seq<Seq<u8>>,
)
    requires
        o.len() == 16,
        valid_type(t),
        i.len() == 16,
        edge_mirror_consistent(s),
        edge_stored_dt(s, o, t, i) == Some(d),
    ensures
        edge_mirror_consistent(apply_ops(s, edge_delete_ops(o, t, i, d, names))),
        edge_stored_dt(apply_ops(s, edge_delete_ops(o, t, i, d, names)), o, t, i) is None,
{
    let s2 = apply_ops(s, edge_delete_ops(o, t, i, d, names));
    lemma_edge_delete_ops_effect(s, o, t, i, d, names);
    assert(edge_stored_dt(s2, o, t, i) is None);
    assert forall|o2: Seq<u8>, t2: Seq<u8>, d2: u64, i2: Seq<u8>|
        #![trigger range_key(o2, t2, d2, i2)]
        o2.len() == 16 && valid_type(t2) && i2.len() == 16 implies ((has_fwd(s2, o2, t2, d2, i2)
        <==> edge_stored_dt(s2, o2, t2, i2) == Some(d2)) && (has_rev(s2, o2, t2, d2, i2)
        <==> edge_stored_dt(s2, o2, t2, i2) == Some(d2))) by {
        if o2 == o && t2 == t && i2 == i {
            if d2 != d {
                assert(range_key(o, t, d2, i) != range_key(o, t, d, i)) by {
                    if range_key(o, t, d2, i) == range_key(o, t, d, i) {
                        lemma_range_key_injective(o, t, d2, i, o, t, d, i);
                    }
                }
                assert(range_key(i, t, d2, o) != range_key(i, t, d, o)) by {
                    if range_key(i, t, d2, o) == range_key(i, t, d, o) {
                        lemma_range_key_injective(i, t, d2, o, i, t, d, o);
                    }
                }
                assert(has_fwd(s, o, t, d2, i) <==> edge_stored_dt(s, o, t, i) == Some(d2));
                assert(has_rev(s, o, t, d2, i) <==> edge_stored_dt(s, o, t, i) == Some(d2));
            }
        } else {
            assert(edge_key(o2, t2, i2) != edge_key(o, t, i)) by {
                if edge_key(o2, t2, i2) == edge_key(o, t, i) {
                    lemma_edge_key_injective(o2, t2, i2, o, t, i);
                }
            }
            assert(range_key(o2, t2, d2, i2) != range_key(o, t, d, i)) by {
                if range_key(o2, t2, d2, i2) == range_key(o, t, d, i) {
                    lemma_range_key_injective(o2, t2, d2, i2, o, t, d, i);
                }
            }
            assert(range_key(i2, t2, d2, o2) != range_key(i, t, d, o)) by {
                if range_key(i2, t2, d2, o2) == range_key(i, t, d, o) {
                    lemma_range_key_injective(i2, t2, d2, o2, i, t, d, o);
                }
            }
            assert(has_fwd(s, o2, t2, d2, i2) <==> edge_stored_dt(s, o2, t2, i2) == Some(d2));
            assert(has_rev(s, o2, t2, d2, i2) <==> edge_stored_dt(s, o2, t2, i2) == Some(d2));
            assert(edge_stored_dt(s2, o2, t2, i2) == edge_stored_dt(s, o2, t2, i2));
        }
    }
}

/// Law (property orphan freedom): after a vertex-delete cascade commits,
/// from a store whose edge properties are covered by range rows, no
/// vertex-property row of the vertex remains, no edge-property row of an
/// edge at the vertex remains in either direction, and the vertex row
/// itself is gone.
pub proof fn lemma_vertex_delete_orphan_freedom(
    s: StoreView,
    id: Seq<u8>,
    ops: Seq<(Cf, bool, Seq<u8>, Seq<u8>)>,
)
    requires
        id.len() == 16,
        vertex_delete_staged(s, id, ops),
        forall|t: Seq<u8>, i: Seq<u8>, n: Seq<u8>|
            valid_type(t) && i.len() == 16 && s.cf(Cf::EdgeProperties).contains_key(
                #[trigger] edge_prop_key(id, t, i, n),
            ) ==> exists|d: u64| s.cf(Cf::EdgeRanges).contains_key(
                #[trigger] range_key(id, t, d, i),
            ),
        forall|t: Seq<u8>, o: Seq<u8>, n: Seq<u8>|
            valid_type(t) && o.len() == 16 && s.cf(Cf::EdgeProperties).contains_key(
                #[trigger] edge_prop_key(o, t, id, n),
            ) ==> exists|d: u64| s.cf(Cf::ReversedEdgeRanges).contains_key(
                #[trigger] range_key(id, t, d, o),
            ),
    ensures
        !apply_ops(s, ops).cf(Cf::Vertices).contains_key(vertex_key(id)),
        forall|k: Seq<u8>|
            #[trigger] apply_ops(s, ops).cf(Cf::VertexProperties).contains_key(k)
                ==> !id.is_prefix_of(k),
        forall|t: Seq<u8>, i: Seq<u8>, n: Seq<u8>|
            valid_type(t) && i.len() == 16 ==> !apply_ops(s, ops).cf(
                Cf::EdgeProperties,
            ).contains_key(#[trigger] edge_prop_key(id, t, i, n)),
        forall|t: Seq<u8>, o: Seq<u8>, n: Seq<u8>|
            valid_type(t) && o.len() == 16 ==> !apply_ops(s, ops).cf(
                Cf::EdgeProperties,
            ).contains_key(#[trigger] edge_prop_key(o, t, id, n)),
{
    let s2 = apply_ops(s, ops);
    lemma_apply_all_deletes(s, ops, Cf::Vertices, vertex_key(id));
    assert forall|k: Seq<u8>| #[trigger] s2.cf(Cf::VertexProperties).contains_key(k)
        implies !id.is_prefix_of(k) by {
        lemma_apply_all_deletes(s, ops, Cf::VertexProperties, k);
    }
    assert forall|t: Seq<u8>, i: Seq<u8>, n: Seq<u8>|
        valid_type(t) && i.len() == 16 implies !s2.cf(Cf::EdgeProperties).contains_key(
        #[trigger] edge_prop_key(id, t, i, n),
    ) by {
        lemma_apply_all_deletes(s, ops, Cf::EdgeProperties, edge_prop_key(id, t, i, n));
        if s.cf(Cf::EdgeProperties).contains_key(edge_prop_key(id, t, i, n)) {
            let d = choose|d: u64|
                s.cf(Cf::EdgeRanges).contains_key(#[trigger] range_key(id, t, d, i));
            assert(edge_removal_staged(s, id, t, i, d, ops));
        }
    }
    assert forall|t: Seq<u8>, o: Seq<u8>, n: Seq<u8>|
        valid_type(t) && o.len() == 16 implies !s2.cf(Cf::EdgeProperties).contains_key(
        #[trigger] edge_prop_key(o, t, id, n),
    ) by {
        lemma_apply_all_deletes(s, ops, Cf::EdgeProperties, edge_prop_key(o, t, id, n));
        if s.cf(Cf::EdgeProperties).contains_key(edge_prop_key(o, t, id, n)) {
            let d = choose|d: u64|
                s.cf(Cf::ReversedEdgeRanges).contains_key(#[trigger] range_key(id, t, d, o));
            assert(edge_removal_staged(s, o, t, id, d, ops));
        }
    }
}

/// Law (vertex confinement of a cascade): a vertex-delete cascade touches
/// no other vertex's row, so every other vertex survives the commit with
/// its stored type unchanged.
pub proof fn lemma_vertex_delete_spares_others(
    s: StoreView,
    id: Seq<u8>,
    ops: Seq<(Cf, bool, Seq<u8>, Seq<u8>)>,
    other: Seq<u8>,
)
    requires
        id.len() == 16,
        other.len() == 16,
        other != id,
        vertex_delete_staged(s, id, ops),
    ensures
        apply_ops(s, ops).cf(Cf::Vertices).contains_key(vertex_key(other)) == s.cf(
            Cf::Vertices,
        ).contains_key(vertex_key(other)),
        s.cf(Cf::Vertices).contains_key(vertex_key(other)) ==> apply_ops(s, ops).cf(
            Cf::Vertices,
        )[vertex_key(other)] == s.cf(Cf::Vertices)[vertex_key(other)],
{
    lemma_apply_all_deletes(s, ops, Cf::Vertices, vertex_key(other));
    assert(!ops_delete_key(ops, Cf::Vertices, vertex_key(other))) by {
        if ops_delete_key(ops, Cf::Vertices, vertex_key(other)) {
            let j = choose|j: int|
                0 <= j < ops.len() && !(#[trigger] ops[j]).1 && ops[j].0 == Cf::Vertices
                    && ops[j].2 == vertex_key(other);
            assert(ops[j].2 == vertex_key(id));
        }
    }
}


/// Law (cascade confinement): a vertex-delete cascade touches no row of
/// an edge whose endpoints both differ from the vertex, in any of the
/// four edge-related families, and no property row of another vertex:
/// all of them survive the commit, with their values unchanged.
pub proof fn lemma_vertex_delete_spares_unrelated_rows(
    s: StoreView,
    id: Seq<u8>,
    ops: Seq<(Cf, bool, Seq<u8>, Seq<u8>)>,
    o2: Seq<u8>,
    t2: Seq<u8>,
    i2: Seq<u8>,
    d2: u64,
    n2: Seq<u8>,
)
    requires
        id.len() == 16,
        o2.len() == 16,
        valid_type(t2),
        i2.len() == 16,
        o2 != id,
        i2 != id,
        vertex_delete_staged(s, id, ops),
    ensures
        apply_ops(s, ops).cf(Cf::Edges).contains_key(edge_key(o2, t2, i2)) == s.cf(
            Cf::Edges,
        ).contains_key(edge_key(o2, t2, i2)),
        s.cf(Cf::Edges).contains_key(edge_key(o2, t2, i2)) ==> apply_ops(s, ops).cf(
            Cf::Edges,
        )[edge_key(o2, t2, i2)] == s.cf(Cf::Edges)[edge_key(o2, t2, i2)],
        apply_ops(s, ops).cf(Cf::EdgeRanges).contains_key(range_key(o2, t2, d2, i2)) == s.cf(
            Cf::EdgeRanges,
        ).contains_key(range_key(o2, t2, d2, i2)),
        apply_ops(s, ops).cf(Cf::ReversedEdgeRanges).contains_key(range_key(i2, t2, d2, o2))
            == s.cf(Cf::ReversedEdgeRanges).contains_key(range_key(i2, t2, d2, o2)),
        apply_ops(s, ops).cf(Cf::EdgeProperties).contains_key(edge_prop_key(o2, t2, i2, n2))
            == s.cf(Cf::EdgeProperties).contains_key(edge_prop_key(o2, t2, i2, n2)),
        s.cf(Cf::EdgeProperties).contains_key(edge_prop_key(o2, t2, i2, n2)) ==> apply_ops(
            s,
            ops,
        ).cf(Cf::EdgeProperties)[edge_prop_key(o2, t2, i2, n2)] == s.cf(
            Cf::EdgeProperties,
        )[edge_prop_key(o2, t2, i2, n2)],
        apply_ops(s, ops).cf(Cf::VertexProperties).contains_key(vertex_prop_key(o2, n2)) == s.cf(
            Cf::VertexProperties,
        ).contains_key(vertex_prop_key(o2, n2)),
        s.cf(Cf::VertexProperties).contains_key(vertex_prop_key(o2, n2)) ==> apply_ops(
            s,
            ops,
        ).cf(Cf::VertexProperties)[vertex_prop_key(o2, n2)] == s.cf(
            Cf::VertexProperties,
        )[vertex_prop_key(o2, n2)],
{
    lemma_apply_all_deletes(s, ops, Cf::Edges, edge_key(o2, t2, i2));
    assert(!ops_delete_key(ops, Cf::Edges, edge_key(o2, t2, i2))) by {
        if ops_delete_key(ops, Cf::Edges, edge_key(o2, t2, i2)) {
            let j = choose|j: int|
                0 <= j < ops.len() && !(#[trigger] ops[j]).1 && ops[j].0 == Cf::Edges && ops[j].2
                    == edge_key(o2, t2, i2);
            assert(vertex_scoped_op(id, ops[j]));
            let (t, x) = choose|t: Seq<u8>, x: Seq<u8>|
                valid_type(t) && x.len() == 16 && (ops[j].2 == edge_key(id, t, x) || ops[j].2
                    == edge_key(x, t, id));
            if ops[j].2 == edge_key(id, t, x) {
                lemma_edge_key_injective(o2, t2, i2, id, t, x);
            } else {
                lemma_edge_key_injective(o2, t2, i2, x, t, id);
            }
        }
    }
    lemma_apply_all_deletes(s, ops, Cf::EdgeRanges, range_key(o2, t2, d2, i2));
    assert(!ops_delete_key(ops, Cf::EdgeRanges, range_key(o2, t2, d2, i2))) by {
        if ops_delete_key(ops, Cf::EdgeRanges, range_key(o2, t2, d2, i2)) {
            let j = choose|j: int|
                0 <= j < ops.len() && !(#[trigger] ops[j]).1 && ops[j].0 == Cf::EdgeRanges
                    && ops[j].2 == range_key(o2, t2, d2, i2);
            assert(vertex_scoped_op(id, ops[j]));
            let (t, d, x) = choose|t: Seq<u8>, d: u64, x: Seq<u8>|
                valid_type(t) && x.len() == 16 && (ops[j].2 == range_key(id, t, d, x) || ops[j].2
                    == range_key(x, t, d, id));
            if ops[j].2 == range_key(id, t, d, x) {
                lemma_range_key_injective(o2, t2, d2, i2, id, t, d, x);
            } else {
                lemma_range_key_injective(o2, t2, d2, i2, x, t, d, id);
            }
        }
    }
    lemma_apply_all_deletes(s, ops, Cf::ReversedEdgeRanges, range_key(i2, t2, d2, o2));
    assert(!ops_delete_key(ops, Cf::ReversedEdgeRanges, range_key(i2, t2, d2, o2))) by {
        if ops_delete_key(ops, Cf::ReversedEdgeRanges, range_key(i2, t2, d2, o2)) {
            let j = choose|j: int|
                0 <= j < ops.len() && !(#[trigger] ops[j]).1 && ops[j].0 == Cf::ReversedEdgeRanges
                    && ops[j].2 == range_key(i2, t2, d2, o2);
            assert(vertex_scoped_op(id, ops[j]));
            let (t, d, x) = choose|t: Seq<u8>, d: u64, x: Seq<u8>|
                valid_type(t) && x.len() == 16 && (ops[j].2 == range_key(id, t, d, x) || ops[j].2
                    == range_key(x, t, d, id));
            if ops[j].2 == range_key(id, t, d, x) {
                lemma_range_key_injective(i2, t2, d2, o2, id, t, d, x);
            } else {
                lemma_range_key_injective(i2, t2, d2, o2, x, t, d, id);
            }
        }
    }
    lemma_apply_all_deletes(s, ops, Cf::EdgeProperties, edge_prop_key(o2, t2, i2, n2));
    assert(!ops_delete_key(ops, Cf::EdgeProperties, edge_prop_key(o2, t2, i2, n2))) by {
        if ops_delete_key(ops, Cf::EdgeProperties, edge_prop_key(o2, t2, i2, n2)) {
            let j = choose|j: int|
                0 <= j < ops.len() && !(#[trigger] ops[j]).1 && ops[j].0 == Cf::EdgeProperties
                    && ops[j].2 == edge_prop_key(o2, t2, i2, n2);
            assert(vertex_scoped_op(id, ops[j]));
            let (t, x, n) = choose|t: Seq<u8>, x: Seq<u8>, n: Seq<u8>|
                valid_type(t) && x.len() == 16 && (ops[j].2 == edge_prop_key(id, t, x, n)
                    || ops[j].2 == edge_prop_key(x, t, id, n));
            if ops[j].2 == edge_prop_key(id, t, x, n) {
                lemma_edge_prop_key_injective(o2, t2, i2, n2, id, t, x, n);
            } else {
                lemma_edge_prop_key_injective(o2, t2, i2, n2, x, t, id, n);
            }
        }
    }
    lemma_apply_all_deletes(s, ops, Cf::VertexProperties, vertex_prop_key(o2, n2));
    assert(!ops_delete_key(ops, Cf::VertexProperties, vertex_prop_key(o2, n2))) by {
        if ops_delete_key(ops, Cf::VertexProperties, vertex_prop_key(o2, n2)) {
            let j = choose|j: int|
                0 <= j < ops.len() && !(#[trigger] ops[j]).1 && ops[j].0 == Cf::VertexProperties
                    && ops[j].2 == vertex_prop_key(o2, n2);
            assert(vertex_scoped_op(id, ops[j]));
            assert(id.is_prefix_of(ops[j].2));
            lemma_vertex_prop_key_injective(o2, n2, id);
        }
    }
}

} // verus!
