//! The key-value layer: six column families of unique byte-keyed rows,
//! and the atomic write batch. A batch stages puts and deletes; `commit`
//! applies them in order, and its contract is the fold `apply_ops` over
//! the staged operations, which the law lemmas reason about.

use vstd::prelude::*;

use crate::codec::has_prefix;

verus! {

/// The column families, one per index.
#[derive(Clone, Copy, PartialEq, Eq, Structural, Debug)]
pub enum Cf {
    Vertices,
    Edges,
    EdgeRanges,
    ReversedEdgeRanges,
    VertexProperties,
    EdgeProperties,
}

impl Cf {
    /// The stable on-disk name of the family, for engine adapters.
    pub fn name(&self) -> (r: &'static str)
        ensures
            self is Vertices ==> r@ == "vertices:v1"@,
            self is Edges ==> r@ == "edges:v1"@,
            self is EdgeRanges ==> r@ == "edge_ranges:v1"@,
            self is ReversedEdgeRanges ==> r@ == "reversed_edge_ranges:v1"@,
            self is VertexProperties ==> r@ == "vertex_properties:v1"@,
            self is EdgeProperties ==> r@ == "edge_properties:v1"@,
    {
        match self {
            Cf::Vertices => "vertices:v1",
            Cf::Edges => "edges:v1",
            Cf::EdgeRanges => "edge_ranges:v1",
            Cf::ReversedEdgeRanges => "reversed_edge_ranges:v1",
            Cf::VertexProperties => "vertex_properties:v1",
            Cf::EdgeProperties => "edge_properties:v1",
        }
    }
}

/// A staged operation as the specifications see it:
/// `(family, is_put, key, value)`; a delete carries an empty value.
pub open spec fn put_op(cf: Cf, k: Seq<u8>, v: Seq<u8>) -> (Cf, bool, Seq<u8>, Seq<u8>) {
    (cf, true, k, v)
}

/// A staged delete of one key.
pub open spec fn del_op(cf: Cf, k: Seq<u8>) -> (Cf, bool, Seq<u8>, Seq<u8>) {
    (cf, false, k, Seq::empty())
}

/// One operation staged on a write batch.
#[derive(Clone, Debug)]
pub enum BatchOp {
    Put { cf: Cf, key: Vec<u8>, value: Vec<u8> },
    Delete { cf: Cf, key: Vec<u8> },
}

impl View for BatchOp {
    type V = (Cf, bool, Seq<u8>, Seq<u8>);

    open spec fn view(&self) -> (Cf, bool, Seq<u8>, Seq<u8>) {
        match self {
            BatchOp::Put { cf, key, value } => (*cf, true, key@, value@),
            BatchOp::Delete { cf, key } => (*cf, false, key@, Seq::empty()),
        }
    }
}

/// An accumulator of puts and deletes, applied atomically on commit.
#[derive(Debug)]
pub struct WriteBatch {
    pub ops: Vec<BatchOp>,
}

impl View for WriteBatch {
    type V = Seq<(Cf, bool, Seq<u8>, Seq<u8>)>;

    open spec fn view(&self) -> Seq<(Cf, bool, Seq<u8>, Seq<u8>)> {
        self.ops@.map_values(|op: BatchOp| op@)
    }
}

impl WriteBatch {
    pub fn new() -> (r: WriteBatch)
        ensures
            r@ == Seq::<(Cf, bool, Seq<u8>, Seq<u8>)>::empty(),
    {
        let b = WriteBatch { ops: Vec::new() };
        proof {
            assert(b@ =~= Seq::<(Cf, bool, Seq<u8>, Seq<u8>)>::empty());
        }
        b
    }

    /// Stage a put of `key -> value` in `cf`.
    pub fn stage_put(&mut self, cf: Cf, key: Vec<u8>, value: Vec<u8>)
        ensures
            final(self)@ == old(self)@.push(put_op(cf, key@, value@)),
    {
        let ghost prev = self@;
        let ghost kv = key@;
        let ghost vv = value@;
        self.ops.push(BatchOp::Put { cf, key, value });
        proof {
            assert(self@ =~= prev.push(put_op(cf, kv, vv)));
        }
    }

    /// Stage a delete of `key` in `cf`.
    pub fn stage_delete(&mut self, cf: Cf, key: Vec<u8>)
        ensures
            final(self)@ == old(self)@.push(del_op(cf, key@)),
    {
        let ghost prev = self@;
        let ghost kv = key@;
        self.ops.push(BatchOp::Delete { cf, key });
        proof {
            assert(self@ =~= prev.push(del_op(cf, kv)));
        }
    }
}

/// The mathematical content of the whole store: one map per family.
pub ghost struct StoreView {
    pub vertices: Map<Seq<u8>, Seq<u8>>,
    pub edges: Map<Seq<u8>, Seq<u8>>,
    pub edge_ranges: Map<Seq<u8>, Seq<u8>>,
    pub reversed_edge_ranges: Map<Seq<u8>, Seq<u8>>,
    pub vertex_properties: Map<Seq<u8>, Seq<u8>>,
    pub edge_properties: Map<Seq<u8>, Seq<u8>>,
}

impl StoreView {
    /// The rows of one family.
    pub open spec fn cf(self, cf: Cf) -> Map<Seq<u8>, Seq<u8>> {
        match cf {
            Cf::Vertices => self.vertices,
            Cf::Edges => self.edges,
            Cf::EdgeRanges => self.edge_ranges,
            Cf::ReversedEdgeRanges => self.reversed_edge_ranges,
            Cf::VertexProperties => self.vertex_properties,
            Cf::EdgeProperties => self.edge_properties,
        }
    }

    /// Replace the rows of one family.
    pub open spec fn set_cf(self, cf: Cf, m: Map<Seq<u8>, Seq<u8>>) -> StoreView {
        match cf {
            Cf::Vertices => StoreView { vertices: m, ..self },
            Cf::Edges => StoreView { edges: m, ..self },
            Cf::EdgeRanges => StoreView { edge_ranges: m, ..self },
            Cf::ReversedEdgeRanges => StoreView { reversed_edge_ranges: m, ..self },
            Cf::VertexProperties => StoreView { vertex_properties: m, ..self },
            Cf::EdgeProperties => StoreView { edge_properties: m, ..self },
        }
    }
}

/// The effect of one staged operation.
pub open spec fn apply_op(s: StoreView, op: (Cf, bool, Seq<u8>, Seq<u8>)) -> StoreView {
    if op.1 {
        s.set_cf(op.0, s.cf(op.0).insert(op.2, op.3))
    } else {
        s.set_cf(op.0, s.cf(op.0).remove(op.2))
    }
}

/// The effect of a batch: its operations applied in order.
pub open spec fn apply_ops(s: StoreView, ops: Seq<(Cf, bool, Seq<u8>, Seq<u8>)>) -> StoreView
    decreases ops.len(),
{
    if ops.len() == 0 {
        s
    } else {
        apply_op(apply_ops(s, ops.drop_last()), ops.last())
    }
}

/// The last operation of `ops` that touches `(cf, k)`, if any.
pub open spec fn last_touch(
    ops: Seq<(Cf, bool, Seq<u8>, Seq<u8>)>,
    cf: Cf,
    k: Seq<u8>,
) -> Option<(Cf, bool, Seq<u8>, Seq<u8>)>
    decreases ops.len(),
{
    if ops.len() == 0 {
        None
    } else if ops.last().0 == cf && ops.last().2 == k {
        Some(ops.last())
    } else {
        last_touch(ops.drop_last(), cf, k)
    }
}

/// What a batch does to one row: the last touching operation decides;
/// an untouched row is unchanged.
pub proof fn lemma_apply_last_touch(
    s: StoreView,
    ops: Seq<(Cf, bool, Seq<u8>, Seq<u8>)>,
    cf: Cf,
    k: Seq<u8>,
)
    ensures
        match last_touch(ops, cf, k) {
            None => apply_ops(s, ops).cf(cf).contains_key(k) == s.cf(cf).contains_key(k)
                && (s.cf(cf).contains_key(k) ==> apply_ops(s, ops).cf(cf)[k] == s.cf(cf)[k]),
            Some(op) => if op.1 {
                apply_ops(s, ops).cf(cf).contains_key(k) && apply_ops(s, ops).cf(cf)[k] == op.3
            } else {
                !apply_ops(s, ops).cf(cf).contains_key(k)
            },
        },
    decreases ops.len(),
{
    if ops.len() > 0 {
        lemma_apply_last_touch(s, ops.drop_last(), cf, k);
    }
}

/// Whether every operation of a batch is a delete.
pub open spec fn ops_all_deletes(ops: Seq<(Cf, bool, Seq<u8>, Seq<u8>)>) -> bool {
    forall|j: int| 0 <= j < ops.len() ==> !(#[trigger] ops[j]).1
}

/// Whether some operation of a batch deletes `(cf, k)`.
pub open spec fn ops_delete_key(
    ops: Seq<(Cf, bool, Seq<u8>, Seq<u8>)>,
    cf: Cf,
    k: Seq<u8>,
) -> bool {
    exists|j: int|
        0 <= j < ops.len() && !(#[trigger] ops[j]).1 && ops[j].0 == cf && ops[j].2 == k
}

/// A batch of deletes removes exactly the keys it names and nothing more.
pub proof fn lemma_apply_all_deletes(
    s: StoreView,
    ops: Seq<(Cf, bool, Seq<u8>, Seq<u8>)>,
    cf: Cf,
    k: Seq<u8>,
)
    requires
        ops_all_deletes(ops),
    ensures
        apply_ops(s, ops).cf(cf).contains_key(k) <==> (s.cf(cf).contains_key(k)
            && !ops_delete_key(ops, cf, k)),
        apply_ops(s, ops).cf(cf).contains_key(k) ==> apply_ops(s, ops).cf(cf)[k] == s.cf(cf)[k],
    decreases ops.len(),
{
    if ops.len() > 0 {
        assert(ops_all_deletes(ops.drop_last())) by {
            assert(forall|j: int|
                0 <= j < ops.len() - 1 ==> ops.drop_last()[j] == #[trigger] ops[j]);
        }
        lemma_apply_all_deletes(s, ops.drop_last(), cf, k);
        if ops.last().0 == cf && ops.last().2 == k {
            assert(!ops.last().1);
            assert(ops_delete_key(ops, cf, k)) by {
                assert(!ops[ops.len() - 1].1 && ops[ops.len() - 1].0 == cf && ops[ops.len()
                    - 1].2 == k);
            }
        } else {
            assert(ops_delete_key(ops.drop_last(), cf, k) <==> ops_delete_key(ops, cf, k)) by {
                if ops_delete_key(ops.drop_last(), cf, k) {
                    let j = choose|j: int|
                        0 <= j < ops.drop_last().len() && !(#[trigger] ops.drop_last()[j]).1
                            && ops.drop_last()[j].0 == cf && ops.drop_last()[j].2 == k;
                    assert(!ops[j].1 && ops[j].0 == cf && ops[j].2 == k);
                }
                if ops_delete_key(ops, cf, k) {
                    let j = choose|j: int|
                        0 <= j < ops.len() && !(#[trigger] ops[j]).1 && ops[j].0 == cf && ops[j].2
                            == k;
                    assert(j < ops.len() - 1) by {
                        if j == ops.len() - 1 {
                            assert(ops.last().0 == cf && ops.last().2 == k);
                        }
                    }
                    assert(!ops.drop_last()[j].1 && ops.drop_last()[j].0 == cf
                        && ops.drop_last()[j].2 == k);
                }
            }
        }
    }
}

// ---------------------------------------------------------------------------
// One column family of rows, keyed uniquely by byte strings.
// ---------------------------------------------------------------------------

/// Whether a row sequence has pairwise distinct keys.
pub open spec fn unique_keys(s: Seq<(Seq<u8>, Seq<u8>)>) -> bool {
    forall|i: int, j: int| 0 <= i < j < s.len() ==> (#[trigger] s[i]).0 != (#[trigger] s[j]).0
}

/// Whether a row sequence is strictly ascending in key order.
pub open spec fn sorted_rows(s: Seq<(Seq<u8>, Seq<u8>)>) -> bool {
    forall|i: int, j: int|
        0 <= i < j < s.len() ==> crate::codec::lex_lt((#[trigger] s[i]).0, (#[trigger] s[j]).0)
}

/// Strictly sorted rows have pairwise distinct keys.
pub proof fn lemma_sorted_unique(s: Seq<(Seq<u8>, Seq<u8>)>)
    requires
        sorted_rows(s),
    ensures
        unique_keys(s),
{
    assert forall|i: int, j: int| 0 <= i < j < s.len() implies (#[trigger] s[i]).0 != (
    #[trigger] s[j]).0 by {
        crate::codec::lemma_lex_irrefl(s[i].0);
    }
}

/// Removing a row keeps the rest strictly sorted.
proof fn lemma_sorted_remove(s: Seq<(Seq<u8>, Seq<u8>)>, idx: int)
    requires
        sorted_rows(s),
        0 <= idx < s.len(),
    ensures
        sorted_rows(s.remove(idx)),
{
    assert(forall|m: int|
        0 <= m < s.remove(idx).len() ==> #[trigger] s.remove(idx)[m] == (if m < idx {
            s[m]
        } else {
            s[m + 1]
        }));
}

/// The map a row sequence denotes; on duplicate keys the later row wins.
pub open spec fn rows_to_map(s: Seq<(Seq<u8>, Seq<u8>)>) -> Map<Seq<u8>, Seq<u8>>
    decreases s.len(),
{
    if s.len() == 0 {
        Map::empty()
    } else {
        rows_to_map(s.drop_last()).insert(s.last().0, s.last().1)
    }
}

/// Membership in the denoted map, in terms of the rows.
pub proof fn lemma_rows_to_map_contains(s: Seq<(Seq<u8>, Seq<u8>)>, k: Seq<u8>)
    ensures
        rows_to_map(s).contains_key(k) <==> exists|i: int|
            0 <= i < s.len() && (#[trigger] s[i]).0 == k,
    decreases s.len(),
{
    if s.len() > 0 {
        lemma_rows_to_map_contains(s.drop_last(), k);
        assert(forall|i: int| 0 <= i < s.len() - 1 ==> s.drop_last()[i] == #[trigger] s[i]);
        if rows_to_map(s).contains_key(k) {
            if s.last().0 == k {
                assert(s[s.len() - 1].0 == k);
            } else {
                let i = choose|i: int|
                    0 <= i < s.drop_last().len() && (#[trigger] s.drop_last()[i]).0 == k;
                assert(s[i].0 == k);
            }
        }
        if exists|i: int| 0 <= i < s.len() && (#[trigger] s[i]).0 == k {
            let i = choose|i: int| 0 <= i < s.len() && (#[trigger] s[i]).0 == k;
            if i < s.len() - 1 {
                assert(s.drop_last()[i].0 == k);
            }
        }
    }
}

/// With unique keys, each row's value is the denoted map's value.
pub proof fn lemma_rows_to_map_value(s: Seq<(Seq<u8>, Seq<u8>)>, i: int)
    requires
        unique_keys(s),
        0 <= i < s.len(),
    ensures
        rows_to_map(s).contains_key(s[i].0),
        rows_to_map(s)[s[i].0] == s[i].1,
    decreases s.len(),
{
    if i == s.len() - 1 {
    } else {
        assert(unique_keys(s.drop_last())) by {
            assert(forall|m: int| 0 <= m < s.len() - 1 ==> s.drop_last()[m] == #[trigger] s[m]);
        }
        lemma_rows_to_map_value(s.drop_last(), i);
        assert(s.drop_last()[i] == s[i]);
        assert(s.last().0 != s[i].0);
    }
}

/// One column family: a vector of rows with pairwise distinct keys.
#[derive(Debug)]
pub struct Family {
    rows: Vec<(Vec<u8>, Vec<u8>)>,
}

impl View for Family {
    type V = Map<Seq<u8>, Seq<u8>>;

    closed spec fn view(&self) -> Map<Seq<u8>, Seq<u8>> {
        rows_to_map(self.row_view())
    }
}

impl Family {
    /// The rows as the specifications see them.
    pub closed spec fn row_view(&self) -> Seq<(Seq<u8>, Seq<u8>)> {
        self.rows@.map_values(|p: (Vec<u8>, Vec<u8>)| (p.0@, p.1@))
    }

    /// The family's internal invariant: rows strictly ascending in key
    /// order, as an ordered key-value store keeps them.
    pub closed spec fn wf(&self) -> bool {
        sorted_rows(self.row_view())
    }

    pub fn new() -> (r: Family)
        ensures
            r.wf(),
            r@ == Map::<Seq<u8>, Seq<u8>>::empty(),
    {
        let f = Family { rows: Vec::new() };
        proof {
            assert(f.row_view() =~= Seq::<(Seq<u8>, Seq<u8>)>::empty());
        }
        f
    }

    /// Point lookup.
    pub fn get(&self, key: &Vec<u8>) -> (r: Option<Vec<u8>>)
        requires
            self.wf(),
        ensures
            match r {
                Some(v) => self@.contains_key(key@) && self@[key@] == v@,
                None => !self@.contains_key(key@),
            },
    {
        let ghost rows = self.row_view();
        proof {
            lemma_sorted_unique(rows);
        }
        let n = self.rows.len();
        let mut idx: usize = 0;
        while idx < n
            invariant
                n == rows.len(),
                idx <= n,
                self.wf(),
                unique_keys(rows),
                rows == self.row_view(),
                forall|m: int| 0 <= m < idx ==> (#[trigger] rows[m]).0 != key@,
            decreases n - idx,
        {
            if bytes_eq(&self.rows[idx].0, key) {
                let v = copy_bytes(&self.rows[idx].1);
                proof {
                    assert(rows[idx as int].0 == key@);
                    lemma_rows_to_map_value(rows, idx as int);
                }
                return Some(v);
            }
            idx += 1;
        }
        proof {
            lemma_rows_to_map_contains(rows, key@);
        }
        None
    }

    /// Remove the row with `key`, if present.
    pub fn delete(&mut self, key: &Vec<u8>)
        requires
            old(self).wf(),
        ensures
            final(self).wf(),
            final(self)@ == old(self)@.remove(key@),
            forall|m: int| 0 <= m < final(self).row_view().len() ==> (#[trigger] final(self).row_view()[m]).0 != key@,
            final(self).row_view().len() <= old(self).row_view().len(),
    {
        let ghost rows0 = self.row_view();
        proof {
            lemma_sorted_unique(rows0);
        }
        let n = self.rows.len();
        let mut idx: usize = 0;
        while idx < n
            invariant
                n == rows0.len(),
                idx <= n,
                self.wf(),
                unique_keys(rows0),
                rows0 == self.row_view(),
                rows0 == old(self).row_view(),
                forall|m: int| 0 <= m < idx ==> (#[trigger] rows0[m]).0 != key@,
            decreases n - idx,
        {
            if bytes_eq(&self.rows[idx].0, key) {
                let ghost prev_vec = self.rows@;
                self.rows.remove(idx);
                proof {
                    assert(rows0[idx as int].0 == key@);
                    assert forall|m: int| 0 <= m < self.row_view().len() implies self.row_view()[m]
                        == rows0.remove(idx as int)[m] by {
                        if m < idx {
                            assert(self.rows@[m] == prev_vec[m]);
                            assert(rows0[m] == (prev_vec[m].0@, prev_vec[m].1@));
                        } else {
                            assert(self.rows@[m] == prev_vec[m + 1]);
                            assert(rows0[m + 1] == (prev_vec[m + 1].0@, prev_vec[m + 1].1@));
                        }
                    }
                    assert(self.row_view() =~= rows0.remove(idx as int));
                    lemma_sorted_remove(rows0, idx as int);
                    lemma_rows_to_map_remove(rows0, idx as int);
                    assert forall|m: int| 0 <= m < self.row_view().len() implies (#[trigger] self.row_view()[m]).0 != key@ by {
                        if m < idx {
                            assert(rows0.remove(idx as int)[m] == rows0[m]);
                        } else {
                            assert(rows0.remove(idx as int)[m] == rows0[m + 1]);
                        }
                    }
                }
                return ;
            }
            idx += 1;
        }
        proof {
            lemma_rows_to_map_contains(rows0, key@);
            assert(!self@.contains_key(key@));
            assert(self@ =~= self@.remove(key@));
        }
    }

    /// Insert or overwrite the row with `key`, keeping the rows in key
    /// order.
    pub fn put(&mut self, key: Vec<u8>, value: Vec<u8>)
        requires
            old(self).wf(),
        ensures
            final(self).wf(),
            final(self)@ == old(self)@.insert(key@, value@),
    {
        let ghost before = self@;
        let ghost kv = key@;
        let ghost vv = value@;
        self.delete(&key);
        let ghost mid = self.row_view();
        let n = self.rows.len();
        let mut idx: usize = 0;
        while idx < n && lex_less(&self.rows[idx].0, &key)
            invariant
                n == mid.len(),
                idx <= n,
                self.wf(),
                mid == self.row_view(),
                kv == key@,
                self@ == before.remove(kv),
                forall|m: int| 0 <= m < mid.len() ==> (#[trigger] mid[m]).0 != kv,
                forall|m: int| 0 <= m < idx ==> crate::codec::lex_lt((#[trigger] mid[m]).0, kv),
            decreases n - idx,
        {
            proof {
                assert(mid[idx as int].0 == self.rows@[idx as int].0@);
            }
            idx += 1;
        }
        proof {
            assert forall|m: int| idx <= m < n implies crate::codec::lex_lt(
                kv,
                (#[trigger] mid[m]).0,
            ) by {
                crate::codec::lemma_lex_total(kv, mid[idx as int].0);
                if m > idx {
                    crate::codec::lemma_lex_trans(kv, mid[idx as int].0, mid[m].0);
                }
            }
        }
        let ghost prev_vec = self.rows@;
        self.rows.insert(idx, (key, value));
        proof {
            assert forall|m: int| 0 <= m < self.row_view().len() implies self.row_view()[m]
                == mid.insert(idx as int, (kv, vv))[m] by {
                prev_vec.map_values(|p: (Vec<u8>, Vec<u8>)| (p.0@, p.1@)).insert_ensures(
                    idx as int,
                    (kv, vv),
                );
                if m < idx {
                    assert(self.rows@[m] == prev_vec[m]);
                    assert(mid[m] == (prev_vec[m].0@, prev_vec[m].1@));
                } else if m == idx {
                    assert(self.rows@[m] == prev_vec.insert(idx as int, self.rows@[idx as int])[
                        m]);
                } else {
                    assert(self.rows@[m] == prev_vec[m - 1]);
                    assert(mid[m - 1] == (prev_vec[m - 1].0@, prev_vec[m - 1].1@));
                }
            }
            assert(self.row_view() =~= mid.insert(idx as int, (kv, vv)));
            mid.insert_ensures(idx as int, (kv, vv));
            assert(sorted_rows(self.row_view())) by {
                assert forall|m1: int, m2: int|
                    0 <= m1 < m2 < mid.insert(idx as int, (kv, vv)).len()
                    implies crate::codec::lex_lt(
                    (#[trigger] mid.insert(idx as int, (kv, vv))[m1]).0,
                    (#[trigger] mid.insert(idx as int, (kv, vv))[m2]).0,
                ) by {
                    let t = mid.insert(idx as int, (kv, vv));
                    if m1 < idx {
                        assert(t[m1] == mid[m1]);
                    }
                    if m2 < idx {
                        assert(t[m2] == mid[m2]);
                    }
                    if m1 > idx {
                        assert(t[m1] == mid[m1 - 1]);
                    }
                    if m2 > idx {
                        assert(t[m2] == mid[m2 - 1]);
                    }
                }
            }
            lemma_rows_to_map_insert(mid, idx as int, (kv, vv));
            assert(self@ =~= before.insert(kv, vv));
        }
    }

    /// All rows whose key begins with `prefix`, with their values.
    pub fn scan_prefix(&self, prefix: &Vec<u8>) -> (r: Vec<(Vec<u8>, Vec<u8>)>)
        requires
            self.wf(),
        ensures
            forall|j: int|
                0 <= j < r@.len() ==> prefix@.is_prefix_of((#[trigger] r@[j]).0@)
                    && self@.contains_key(r@[j].0@) && self@[r@[j].0@] == r@[j].1@,
            forall|k: Seq<u8>|
                self@.contains_key(k) && prefix@.is_prefix_of(k) ==> exists|j: int|
                    0 <= j < r@.len() && (#[trigger] r@[j]).0@ == k,
            unique_keys(r@.map_values(|p: (Vec<u8>, Vec<u8>)| (p.0@, p.1@))),
            forall|j1: int, j2: int|
                0 <= j1 < j2 < r@.len() ==> crate::codec::lex_lt(
                    (#[trigger] r@[j1]).0@,
                    (#[trigger] r@[j2]).0@,
                ),
    {
        let ghost rows = self.row_view();
        proof {
            lemma_sorted_unique(rows);
        }
        let n = self.rows.len();
        let mut out: Vec<(Vec<u8>, Vec<u8>)> = Vec::new();
        let mut idx: usize = 0;
        while idx < n
            invariant
                n == rows.len(),
                idx <= n,
                self.wf(),
                unique_keys(rows),
                rows == self.row_view(),
                forall|j: int|
                    0 <= j < out@.len() ==> prefix@.is_prefix_of((#[trigger] out@[j]).0@)
                        && self@.contains_key(out@[j].0@) && self@[out@[j].0@] == out@[j].1@,
                forall|j: int|
                    0 <= j < out@.len() ==> exists|m: int|
                        0 <= m < idx && (#[trigger] out@[j]).0@ == rows[m].0,
                forall|m: int|
                    0 <= m < idx && prefix@.is_prefix_of((#[trigger] rows[m]).0) ==> exists|j: int|
                        0 <= j < out@.len() && (#[trigger] out@[j]).0@ == rows[m].0,
                unique_keys(out@.map_values(|p: (Vec<u8>, Vec<u8>)| (p.0@, p.1@))),
                forall|j1: int, j2: int|
                    0 <= j1 < j2 < out@.len() ==> crate::codec::lex_lt(
                        (#[trigger] out@[j1]).0@,
                        (#[trigger] out@[j2]).0@,
                    ),
            decreases n - idx,
        {
            let ghost out0 = out@;
            if has_prefix(&self.rows[idx].0, prefix) {
                let k = copy_bytes(&self.rows[idx].0);
                let v = copy_bytes(&self.rows[idx].1);
                proof {
                    assert(rows[idx as int].0 == self.rows@[idx as int].0@);
                    lemma_rows_to_map_value(rows, idx as int);
                    assert forall|j: int|
                        0 <= j < out0.len() implies (#[trigger] out0[j]).0@ != rows[idx as int].0 by {
                        let m = choose|m: int|
                            0 <= m < idx && (#[trigger] out0[j]).0@ == rows[m].0;
                        assert(rows[m].0 != rows[idx as int].0);
                    }
                }
                out.push((k, v));
                proof {
                    assert(out@.map_values(|p: (Vec<u8>, Vec<u8>)| (p.0@, p.1@)) =~= out0
                        .map_values(|p: (Vec<u8>, Vec<u8>)| (p.0@, p.1@)).push(
                        (rows[idx as int].0, rows[idx as int].1),
                    ));
                    assert(forall|m: int| 0 <= m < out0.len() ==> #[trigger] out@[m] == out0[m]);
                    assert(out@[out@.len() - 1].0@ == rows[idx as int].0);
                    assert forall|j1: int, j2: int|
                        0 <= j1 < j2 < out@.len() implies crate::codec::lex_lt(
                        (#[trigger] out@[j1]).0@,
                        (#[trigger] out@[j2]).0@,
                    ) by {
                        if j2 == out@.len() - 1 {
                            let m = choose|m: int|
                                0 <= m < idx && (#[trigger] out0[j1]).0@ == rows[m].0;
                            assert(crate::codec::lex_lt(rows[m].0, rows[idx as int].0));
                        }
                    }
                }
            } else {
                proof {
                    assert(!prefix@.is_prefix_of(rows[idx as int].0));
                }
            }
            proof {
                assert forall|j: int| 0 <= j < out@.len() implies exists|m: int|
                    0 <= m < idx + 1 && (#[trigger] out@[j]).0@ == rows[m].0 by {
                    if j < out0.len() {
                        let m = choose|m: int| 0 <= m < idx && (#[trigger] out0[j]).0@ == rows[m].0;
                        assert(out@[j] == out0[j]);
                        assert(out@[j].0@ == rows[m].0);
                    } else {
                        assert(out@[j].0@ == rows[idx as int].0);
                    }
                }
                assert forall|m: int|
                    0 <= m < idx + 1 && prefix@.is_prefix_of((#[trigger] rows[m]).0)
                    implies exists|j: int|
                    0 <= j < out@.len() && (#[trigger] out@[j]).0@ == rows[m].0 by {
                    if m < idx {
                        let j = choose|j: int|
                            0 <= j < out0.len() && (#[trigger] out0[j]).0@ == rows[m].0;
                        assert(out@[j].0@ == rows[m].0);
                    } else {
                        assert(out@[out@.len() - 1].0@ == rows[idx as int].0);
                    }
                }
            }
            idx += 1;
        }
        proof {
            assert forall|k: Seq<u8>|
                self@.contains_key(k) && prefix@.is_prefix_of(k) implies exists|j: int|
                0 <= j < out@.len() && (#[trigger] out@[j]).0@ == k by {
                lemma_rows_to_map_contains(rows, k);
                let m = choose|m: int| 0 <= m < rows.len() && (#[trigger] rows[m]).0 == k;
                assert(prefix@.is_prefix_of(rows[m].0));
            }
        }
        out
    }

    /// All rows whose key is not lexicographically below `low`.
    pub fn scan_from(&self, low: &Vec<u8>) -> (r: Vec<(Vec<u8>, Vec<u8>)>)
        requires
            self.wf(),
        ensures
            forall|j: int|
                0 <= j < r@.len() ==> !crate::codec::lex_lt((#[trigger] r@[j]).0@, low@)
                    && self@.contains_key(r@[j].0@) && self@[r@[j].0@] == r@[j].1@,
            forall|k: Seq<u8>|
                self@.contains_key(k) && !crate::codec::lex_lt(k, low@) ==> exists|j: int|
                    0 <= j < r@.len() && (#[trigger] r@[j]).0@ == k,
            forall|j1: int, j2: int|
                0 <= j1 < j2 < r@.len() ==> crate::codec::lex_lt(
                    (#[trigger] r@[j1]).0@,
                    (#[trigger] r@[j2]).0@,
                ),
    {
        let ghost rows = self.row_view();
        proof {
            lemma_sorted_unique(rows);
        }
        let n = self.rows.len();
        let mut out: Vec<(Vec<u8>, Vec<u8>)> = Vec::new();
        let mut idx: usize = 0;
        while idx < n
            invariant
                n == rows.len(),
                idx <= n,
                self.wf(),
                unique_keys(rows),
                rows == self.row_view(),
                forall|j: int|
                    0 <= j < out@.len() ==> !crate::codec::lex_lt((#[trigger] out@[j]).0@, low@)
                        && self@.contains_key(out@[j].0@) && self@[out@[j].0@] == out@[j].1@,
                forall|j: int|
                    0 <= j < out@.len() ==> exists|m: int|
                        0 <= m < idx && (#[trigger] out@[j]).0@ == rows[m].0,
                forall|m: int|
                    0 <= m < idx && !crate::codec::lex_lt((#[trigger] rows[m]).0, low@)
                        ==> exists|j: int|
                        0 <= j < out@.len() && (#[trigger] out@[j]).0@ == rows[m].0,
                forall|j1: int, j2: int|
                    0 <= j1 < j2 < out@.len() ==> crate::codec::lex_lt(
                        (#[trigger] out@[j1]).0@,
                        (#[trigger] out@[j2]).0@,
                    ),
            decreases n - idx,
        {
            let ghost out0 = out@;
            if !lex_less(&self.rows[idx].0, low) {
                let k = copy_bytes(&self.rows[idx].0);
                let v = copy_bytes(&self.rows[idx].1);
                proof {
                    assert(rows[idx as int].0 == self.rows@[idx as int].0@);
                    lemma_rows_to_map_value(rows, idx as int);
                }
                out.push((k, v));
                proof {
                    assert(forall|m: int| 0 <= m < out0.len() ==> #[trigger] out@[m] == out0[m]);
                    assert(out@[out@.len() - 1].0@ == rows[idx as int].0);
                    assert forall|j1: int, j2: int|
                        0 <= j1 < j2 < out@.len() implies crate::codec::lex_lt(
                        (#[trigger] out@[j1]).0@,
                        (#[trigger] out@[j2]).0@,
                    ) by {
                        if j2 == out@.len() - 1 {
                            let m = choose|m: int|
                                0 <= m < idx && (#[trigger] out0[j1]).0@ == rows[m].0;
                            assert(crate::codec::lex_lt(rows[m].0, rows[idx as int].0));
                        }
                    }
                    assert forall|j: int| 0 <= j < out@.len() implies exists|m: int|
                        0 <= m < idx + 1 && (#[trigger] out@[j]).0@ == rows[m].0 by {
                        if j < out0.len() {
                            let m = choose|m: int|
                                0 <= m < idx && (#[trigger] out0[j]).0@ == rows[m].0;
                            assert(out@[j].0@ == rows[m].0);
                        } else {
                            assert(out@[j].0@ == rows[idx as int].0);
                        }
                    }
                }
            } else {
                proof {
                    assert(crate::codec::lex_lt(rows[idx as int].0, low@));
                }
            }
            proof {
                assert forall|m: int|
                    0 <= m < idx + 1 && !crate::codec::lex_lt((#[trigger] rows[m]).0, low@)
                    implies exists|j: int|
                    0 <= j < out@.len() && (#[trigger] out@[j]).0@ == rows[m].0 by {
                    if m < idx {
                        let j = choose|j: int|
                            0 <= j < out0.len() && (#[trigger] out0[j]).0@ == rows[m].0;
                        assert(out@[j].0@ == rows[m].0);
                    } else {
                        assert(out@[out@.len() - 1].0@ == rows[idx as int].0);
                    }
                }
            }
            idx += 1;
        }
        proof {
            assert forall|k: Seq<u8>|
                self@.contains_key(k) && !crate::codec::lex_lt(k, low@) implies exists|j: int|
                0 <= j < out@.len() && (#[trigger] out@[j]).0@ == k by {
                lemma_rows_to_map_contains(rows, k);
                let m = choose|m: int| 0 <= m < rows.len() && (#[trigger] rows[m]).0 == k;
                assert(!crate::codec::lex_lt(rows[m].0, low@));
            }
        }
        out
    }
}

/// Removing a row removes exactly its key from the denoted map.
proof fn lemma_rows_to_map_remove(s: Seq<(Seq<u8>, Seq<u8>)>, idx: int)
    requires
        unique_keys(s),
        0 <= idx < s.len(),
    ensures
        rows_to_map(s.remove(idx)) == rows_to_map(s).remove(s[idx].0),
    decreases s.len(),
{
    if idx == s.len() - 1 {
        assert(s.remove(idx) =~= s.drop_last());
        lemma_rows_to_map_contains(s.drop_last(), s[idx].0);
        assert(forall|i: int| 0 <= i < s.len() - 1 ==> s.drop_last()[i] == #[trigger] s[i]);
        assert(!rows_to_map(s.drop_last()).contains_key(s[idx].0)) by {
            if rows_to_map(s.drop_last()).contains_key(s[idx].0) {
                let i = choose|i: int|
                    0 <= i < s.drop_last().len() && (#[trigger] s.drop_last()[i]).0 == s[idx].0;
                assert(s[i].0 == s[idx].0);
            }
        }
        assert(rows_to_map(s.remove(idx)) =~= rows_to_map(s).remove(s[idx].0));
    } else {
        let t = s.remove(idx);
        assert(t.len() == s.len() - 1);
        assert(t.last() == s.last()) by {
            assert(t[s.len() - 2] == s[s.len() - 1]);
        }
        assert(t.drop_last() =~= s.drop_last().remove(idx)) by {
            assert(forall|m: int|
                0 <= m < t.drop_last().len() ==> #[trigger] t.drop_last()[m] == (if m < idx {
                    s[m]
                } else {
                    s[m + 1]
                }));
            assert(forall|m: int|
                0 <= m < s.drop_last().remove(idx).len() ==> #[trigger] s.drop_last().remove(
                    idx,
                )[m] == (if m < idx {
                    s[m]
                } else {
                    s[m + 1]
                }));
        }
        assert(unique_keys(s.drop_last())) by {
            assert(forall|i: int| 0 <= i < s.len() - 1 ==> s.drop_last()[i] == #[trigger] s[i]);
        }
        lemma_rows_to_map_remove(s.drop_last(), idx);
        assert(s.last().0 != s[idx].0);
        assert(rows_to_map(t) == rows_to_map(s.drop_last().remove(idx)).insert(
            s.last().0,
            s.last().1,
        ));
        assert(rows_to_map(s.drop_last()).remove(s[idx].0).insert(s.last().0, s.last().1)
            =~= rows_to_map(s.drop_last()).insert(s.last().0, s.last().1).remove(s[idx].0));
    }
}

/// Inserting a fresh key anywhere in the rows inserts it in the map.
proof fn lemma_rows_to_map_insert(s: Seq<(Seq<u8>, Seq<u8>)>, idx: int, p: (Seq<u8>, Seq<u8>))
    requires
        0 <= idx <= s.len(),
        forall|m: int| 0 <= m < s.len() ==> (#[trigger] s[m]).0 != p.0,
    ensures
        rows_to_map(s.insert(idx, p)) == rows_to_map(s).insert(p.0, p.1),
    decreases s.len(),
{
    s.insert_ensures(idx, p);
    let t = s.insert(idx, p);
    if idx == s.len() {
        assert(t =~= s.push(p));
        assert(t.drop_last() =~= s);
    } else {
        assert(t.last() == s.last());
        assert(t.drop_last() =~= s.drop_last().insert(idx, p)) by {
            s.drop_last().insert_ensures(idx, p);
            assert forall|m: int| 0 <= m < t.len() - 1 implies t.drop_last()[m] == s.drop_last()
                .insert(idx, p)[m] by {
                if m < idx {
                    assert(t[m] == s[m]);
                } else if m > idx {
                    assert(t[m] == s[m - 1]);
                }
            }
        }
        assert(forall|m: int|
            0 <= m < s.len() - 1 ==> (#[trigger] s.drop_last()[m]).0 != p.0);
        lemma_rows_to_map_insert(s.drop_last(), idx, p);
        assert(s.last().0 != p.0) by {
            assert(s[s.len() - 1].0 != p.0);
        }
        assert(rows_to_map(s.drop_last()).insert(p.0, p.1).insert(s.last().0, s.last().1)
            =~= rows_to_map(s.drop_last()).insert(s.last().0, s.last().1).insert(p.0, p.1));
    }
}

/// Byte-for-byte equality of two buffers.
pub fn bytes_eq(a: &Vec<u8>, b: &Vec<u8>) -> (r: bool)
    ensures
        r <==> a@ == b@,
{
    if a.len() != b.len() {
        proof {
            assert(a@ != b@);
        }
        return false;
    }
    let n = a.len();
    let mut idx: usize = 0;
    while idx < n
        invariant
            n == a@.len() == b@.len(),
            idx <= n,
            forall|m: int| 0 <= m < idx ==> a@[m] == b@[m],
        decreases n - idx,
    {
        if a[idx] != b[idx] {
            return false;
        }
        idx += 1;
    }
    proof {
        assert(a@ =~= b@);
    }
    true
}

/// A fresh copy of a byte buffer.
pub fn copy_bytes(v: &Vec<u8>) -> (r: Vec<u8>)
    ensures
        r@ == v@,
{
    let n = v.len();
    let mut out: Vec<u8> = Vec::new();
    let mut idx: usize = 0;
    while idx < n
        invariant
            n == v@.len(),
            idx <= n,
            out@ == v@.take(idx as int),
        decreases n - idx,
    {
        let b = v[idx];
        assert(v@.take(idx as int).push(b) =~= v@.take(idx + 1));
        out.push(b);
        idx += 1;
    }
    assert(v@.take(n as int) =~= v@);
    out
}

/// Whether `a` is lexicographically below `b`.
pub fn lex_less(a: &Vec<u8>, b: &Vec<u8>) -> (r: bool)
    ensures
        r <==> crate::codec::lex_lt(a@, b@),
{
    let mut idx: usize = 0;
    proof {
        assert(a@.skip(0) =~= a@);
        assert(b@.skip(0) =~= b@);
    }
    loop
        invariant
            idx <= a@.len(),
            idx <= b@.len(),
            crate::codec::lex_lt(a@, b@) == crate::codec::lex_lt(
                a@.skip(idx as int),
                b@.skip(idx as int),
            ),
        decreases a@.len() - idx,
    {
        if idx == b.len() {
            proof {
                assert(b@.skip(idx as int).len() == 0);
            }
            return false;
        }
        if idx == a.len() {
            proof {
                assert(a@.skip(idx as int).len() == 0);
                assert(b@.skip(idx as int).len() != 0);
            }
            return true;
        }
        let x = a[idx];
        let y = b[idx];
        proof {
            assert(a@.skip(idx as int)[0] == x);
            assert(b@.skip(idx as int)[0] == y);
        }
        if x != y {
            return x < y;
        }
        proof {
            assert(a@.skip(idx as int).skip(1) =~= a@.skip(idx + 1));
            assert(b@.skip(idx as int).skip(1) =~= b@.skip(idx + 1));
        }
        idx += 1;
    }
}

// ---------------------------------------------------------------------------
// The whole store
// ---------------------------------------------------------------------------

/// The in-memory ordered key-value store: six column families and an
/// atomic `commit` for staged batches.
#[derive(Debug)]
pub struct MemStore {
    vertices: Family,
    edges: Family,
    edge_ranges: Family,
    reversed_edge_ranges: Family,
    vertex_properties: Family,
    edge_properties: Family,
}

impl View for MemStore {
    type V = StoreView;

    closed spec fn view(&self) -> StoreView {
        StoreView {
            vertices: self.vertices@,
            edges: self.edges@,
            edge_ranges: self.edge_ranges@,
            reversed_edge_ranges: self.reversed_edge_ranges@,
            vertex_properties: self.vertex_properties@,
            edge_properties: self.edge_properties@,
        }
    }
}

impl MemStore {
    pub closed spec fn wf(&self) -> bool {
        self.vertices.wf() && self.edges.wf() && self.edge_ranges.wf()
            && self.reversed_edge_ranges.wf() && self.vertex_properties.wf()
            && self.edge_properties.wf()
    }

    pub fn new() -> (r: MemStore)
        ensures
            r.wf(),
            forall|cf: Cf| (#[trigger] r@.cf(cf)) == Map::<Seq<u8>, Seq<u8>>::empty(),
    {
        MemStore {
            vertices: Family::new(),
            edges: Family::new(),
            edge_ranges: Family::new(),
            reversed_edge_ranges: Family::new(),
            vertex_properties: Family::new(),
            edge_properties: Family::new(),
        }
    }

    fn family(&self, cf: Cf) -> (r: &Family)
        ensures
            r@ == self@.cf(cf),
            self.wf() ==> r.wf(),
    {
        match cf {
            Cf::Vertices => &self.vertices,
            Cf::Edges => &self.edges,
            Cf::EdgeRanges => &self.edge_ranges,
            Cf::ReversedEdgeRanges => &self.reversed_edge_ranges,
            Cf::VertexProperties => &self.vertex_properties,
            Cf::EdgeProperties => &self.edge_properties,
        }
    }

    /// Point lookup in one family.
    pub fn get(&self, cf: Cf, key: &Vec<u8>) -> (r: Option<Vec<u8>>)
        requires
            self.wf(),
        ensures
            match r {
                Some(v) => self@.cf(cf).contains_key(key@) && self@.cf(cf)[key@] == v@,
                None => !self@.cf(cf).contains_key(key@),
            },
    {
        self.family(cf).get(key)
    }

    /// All rows of one family whose key begins with `prefix`.
    pub fn scan_prefix(&self, cf: Cf, prefix: &Vec<u8>) -> (r: Vec<(Vec<u8>, Vec<u8>)>)
        requires
            self.wf(),
        ensures
            forall|j: int|
                0 <= j < r@.len() ==> prefix@.is_prefix_of((#[trigger] r@[j]).0@)
                    && self@.cf(cf).contains_key(r@[j].0@) && self@.cf(cf)[r@[j].0@] == r@[j].1@,
            forall|k: Seq<u8>|
                self@.cf(cf).contains_key(k) && prefix@.is_prefix_of(k) ==> exists|j: int|
                    0 <= j < r@.len() && (#[trigger] r@[j]).0@ == k,
            unique_keys(r@.map_values(|p: (Vec<u8>, Vec<u8>)| (p.0@, p.1@))),
            forall|j1: int, j2: int|
                0 <= j1 < j2 < r@.len() ==> crate::codec::lex_lt(
                    (#[trigger] r@[j1]).0@,
                    (#[trigger] r@[j2]).0@,
                ),
    {
        self.family(cf).scan_prefix(prefix)
    }

    /// All rows of one family whose key is at or above `low`.
    pub fn scan_from(&self, cf: Cf, low: &Vec<u8>) -> (r: Vec<(Vec<u8>, Vec<u8>)>)
        requires
            self.wf(),
        ensures
            forall|j: int|
                0 <= j < r@.len() ==> !crate::codec::lex_lt((#[trigger] r@[j]).0@, low@)
                    && self@.cf(cf).contains_key(r@[j].0@) && self@.cf(cf)[r@[j].0@] == r@[j].1@,
            forall|k: Seq<u8>|
                self@.cf(cf).contains_key(k) && !crate::codec::lex_lt(k, low@) ==> exists|j: int|
                    0 <= j < r@.len() && (#[trigger] r@[j]).0@ == k,
            forall|j1: int, j2: int|
                0 <= j1 < j2 < r@.len() ==> crate::codec::lex_lt(
                    (#[trigger] r@[j1]).0@,
                    (#[trigger] r@[j2]).0@,
                ),
    {
        self.family(cf).scan_from(low)
    }

    /// Apply every staged operation of `batch`, in order.
    pub fn commit(&mut self, batch: WriteBatch)
        requires
            old(self).wf(),
        ensures
            final(self).wf(),
            final(self)@ == apply_ops(old(self)@, batch@),
    {
        let ghost start = self@;
        let ghost opsv = batch@;
        let n = batch.ops.len();
        let mut idx: usize = 0;
        while idx < n
            invariant
                n == batch.ops@.len(),
                opsv == batch@,
                idx <= n,
                self.wf(),
                start == old(self)@,
                self@ == apply_ops(start, opsv.take(idx as int)),
            decreases n - idx,
        {
            let ghost before = self@;
            match &batch.ops[idx] {
                BatchOp::Put { cf, key, value } => {
                    let k = copy_bytes(key);
                    let v = copy_bytes(value);
                    self.apply_put(*cf, k, v);
                },
                BatchOp::Delete { cf, key } => {
                    self.apply_delete(*cf, key);
                },
            }
            proof {
                assert(opsv[idx as int] == batch.ops@[idx as int]@);
                assert(self@ == apply_op(before, opsv[idx as int]));
                assert(opsv.take(idx + 1).drop_last() =~= opsv.take(idx as int));
                assert(opsv.take(idx + 1).last() == opsv[idx as int]);
            }
            idx += 1;
        }
        proof {
            assert(opsv.take(n as int) =~= opsv);
        }
    }

    fn apply_put(&mut self, cf: Cf, key: Vec<u8>, value: Vec<u8>)
        requires
            old(self).wf(),
        ensures
            final(self).wf(),
            final(self)@ == apply_op(old(self)@, put_op(cf, key@, value@)),
    {
        match cf {
            Cf::Vertices => self.vertices.put(key, value),
            Cf::Edges => self.edges.put(key, value),
            Cf::EdgeRanges => self.edge_ranges.put(key, value),
            Cf::ReversedEdgeRanges => self.reversed_edge_ranges.put(key, value),
            Cf::VertexProperties => self.vertex_properties.put(key, value),
            Cf::EdgeProperties => self.edge_properties.put(key, value),
        }
    }

    fn apply_delete(&mut self, cf: Cf, key: &Vec<u8>)
        requires
            old(self).wf(),
        ensures
            final(self).wf(),
            final(self)@ == apply_op(old(self)@, del_op(cf, key@)),
    {
        match cf {
            Cf::Vertices => self.vertices.delete(key),
            Cf::Edges => self.edges.delete(key),
            Cf::EdgeRanges => self.edge_ranges.delete(key),
            Cf::ReversedEdgeRanges => self.reversed_edge_ranges.delete(key),
            Cf::VertexProperties => self.vertex_properties.delete(key),
            Cf::EdgeProperties => self.edge_properties.delete(key),
        }
    }
}

} // verus!
