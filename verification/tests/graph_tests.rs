use graphstore::managers::{
    EdgeManager, EdgePropertyManager, EdgeRangeManager, VertexManager, VertexPropertyManager,
};
use graphstore::store::{Cf, MemStore, WriteBatch};
use graphstore::types::{Datetime, Error, Id, Type, Vertex};

fn id_a() -> Id {
    Id::new([0x11; 16])
}

fn id_b() -> Id {
    Id::new([0x22; 16])
}

fn ty(s: &str) -> Type {
    Type::new(s.as_bytes().to_vec()).unwrap()
}

fn json_str(s: &str) -> serde_json::Value {
    serde_json::Value::String(s.to_string())
}

#[test]
fn create_vertex_then_get_and_contains() {
    let mut store = MemStore::new();
    let vm = VertexManager::new();
    let mut batch = WriteBatch::new();
    vm.create(&mut batch, &Vertex::new(id_a(), ty("user"))).unwrap();
    store.commit(batch);
    assert_eq!(vm.get(&store, &id_a()).unwrap(), Some(ty("user")));
    assert!(vm.contains(&store, &id_a()).unwrap());
    assert!(!vm.contains(&store, &id_b()).unwrap());
    assert_eq!(vm.get(&store, &id_b()).unwrap(), None);
}

#[test]
fn create_is_an_idempotent_upsert() {
    let mut store = MemStore::new();
    let vm = VertexManager::new();
    let mut batch = WriteBatch::new();
    vm.create(&mut batch, &Vertex::new(id_a(), ty("user"))).unwrap();
    vm.create(&mut batch, &Vertex::new(id_a(), ty("robot"))).unwrap();
    store.commit(batch);
    assert_eq!(vm.get(&store, &id_a()).unwrap(), Some(ty("robot")));
}

fn store_with_edge(dt: u64) -> MemStore {
    let mut store = MemStore::new();
    let vm = VertexManager::new();
    let em = EdgeManager::new();
    let mut batch = WriteBatch::new();
    vm.create(&mut batch, &Vertex::new(id_a(), ty("user"))).unwrap();
    vm.create(&mut batch, &Vertex::new(id_b(), ty("user"))).unwrap();
    store.commit(batch);
    let mut batch = WriteBatch::new();
    em.set(&store, &mut batch, &id_a(), &ty("follows"), &id_b(), Datetime::new(dt)).unwrap();
    store.commit(batch);
    store
}

#[test]
fn edge_set_then_get_and_both_ranges() {
    let store = store_with_edge(1_700_000_000_000);
    let em = EdgeManager::new();
    let dt = Datetime::new(1_700_000_000_000);
    assert_eq!(em.get(&store, &id_a(), &ty("follows"), &id_b()).unwrap(), Some(dt));

    let fwd = EdgeRangeManager::new();
    let rows = fwd.iterate_for_range(&store, &id_a(), Some(&ty("follows")), None).unwrap();
    assert_eq!(rows, vec![(id_a(), ty("follows"), dt, id_b())]);

    let rev = EdgeRangeManager::new_reversed();
    let rows = rev.iterate_for_range(&store, &id_b(), Some(&ty("follows")), None).unwrap();
    assert_eq!(rows, vec![(id_b(), ty("follows"), dt, id_a())]);
}

#[test]
fn edge_reset_moves_the_range_rows() {
    let mut store = store_with_edge(1_700_000_000_000);
    let em = EdgeManager::new();
    let mut batch = WriteBatch::new();
    em.set(&store, &mut batch, &id_a(), &ty("follows"), &id_b(), Datetime::new(1_700_000_100_000))
        .unwrap();
    store.commit(batch);

    let dt = Datetime::new(1_700_000_100_000);
    assert_eq!(em.get(&store, &id_a(), &ty("follows"), &id_b()).unwrap(), Some(dt));
    let fwd = EdgeRangeManager::new();
    let rows = fwd.iterate_for_range(&store, &id_a(), Some(&ty("follows")), None).unwrap();
    assert_eq!(rows, vec![(id_a(), ty("follows"), dt, id_b())]);
    let rev = EdgeRangeManager::new_reversed();
    let rows = rev.iterate_for_range(&store, &id_b(), Some(&ty("follows")), None).unwrap();
    assert_eq!(rows, vec![(id_b(), ty("follows"), dt, id_a())]);
}

#[test]
fn range_scan_honors_type_filter() {
    let mut store = store_with_edge(1000);
    let em = EdgeManager::new();
    let mut batch = WriteBatch::new();
    em.set(&store, &mut batch, &id_a(), &ty("blocks"), &id_b(), Datetime::new(2000)).unwrap();
    store.commit(batch);

    let fwd = EdgeRangeManager::new();
    let rows = fwd.iterate_for_range(&store, &id_a(), Some(&ty("follows")), None).unwrap();
    assert_eq!(rows, vec![(id_a(), ty("follows"), Datetime::new(1000), id_b())]);
    let rows = fwd.iterate_for_range(&store, &id_a(), None, None).unwrap();
    assert_eq!(rows.len(), 2);
}

#[test]
fn range_scan_honors_time_bound() {
    let mut store = store_with_edge(1000);
    let em = EdgeManager::new();
    let mut batch = WriteBatch::new();
    em.set(&store, &mut batch, &id_a(), &ty("blocks"), &id_b(), Datetime::new(2000)).unwrap();
    store.commit(batch);

    let fwd = EdgeRangeManager::new();
    let rows = fwd.iterate_for_range(&store, &id_a(), None, Some(Datetime::new(1500))).unwrap();
    assert_eq!(rows, vec![(id_a(), ty("follows"), Datetime::new(1000), id_b())]);
    let rows = fwd.iterate_for_range(&store, &id_a(), None, Some(Datetime::new(999))).unwrap();
    assert!(rows.is_empty());
    let rows = fwd
        .iterate_for_range(&store, &id_a(), Some(&ty("blocks")), Some(Datetime::new(1999)))
        .unwrap();
    assert!(rows.is_empty());
}

#[test]
fn vertex_property_set_get_iterate_delete() {
    let mut store = store_with_edge(1000);
    let pm = VertexPropertyManager::new();
    let mut batch = WriteBatch::new();
    pm.set(&mut batch, &id_a(), &b"name".to_vec(), &json_str("alice")).unwrap();
    store.commit(batch);

    assert_eq!(pm.get(&store, &id_a(), &b"name".to_vec()).unwrap(), Some(json_str("alice")));
    let items = pm.iterate_for_owner(&store, &id_a());
    assert_eq!(items, vec![((id_a(), b"name".to_vec()), Ok(json_str("alice")))]);

    let mut batch = WriteBatch::new();
    pm.delete(&mut batch, &id_a(), &b"name".to_vec()).unwrap();
    store.commit(batch);
    assert_eq!(pm.get(&store, &id_a(), &b"name".to_vec()).unwrap(), None);
    assert!(pm.iterate_for_owner(&store, &id_a()).is_empty());
}

#[test]
fn edge_property_set_get_iterate() {
    let mut store = store_with_edge(1000);
    let pm = EdgePropertyManager::new();
    let mut batch = WriteBatch::new();
    pm.set(&mut batch, &id_a(), &ty("follows"), &id_b(), &b"weight".to_vec(), &json_str("high"))
        .unwrap();
    store.commit(batch);

    assert_eq!(
        pm.get(&store, &id_a(), &ty("follows"), &id_b(), &b"weight".to_vec()).unwrap(),
        Some(json_str("high"))
    );
    let items = pm.iterate_for_owner(&store, &id_a(), &ty("follows"), &id_b());
    assert_eq!(
        items,
        vec![((id_a(), ty("follows"), id_b(), b"weight".to_vec()), Ok(json_str("high")))]
    );
}

#[test]
fn edge_delete_cascades_to_its_properties() {
    let mut store = store_with_edge(1000);
    let em = EdgeManager::new();
    let pm = EdgePropertyManager::new();
    let mut batch = WriteBatch::new();
    pm.set(&mut batch, &id_a(), &ty("follows"), &id_b(), &b"weight".to_vec(), &json_str("high"))
        .unwrap();
    store.commit(batch);

    let mut batch = WriteBatch::new();
    em.delete(&store, &mut batch, &id_a(), &ty("follows"), &id_b(), Datetime::new(1000)).unwrap();
    store.commit(batch);

    assert_eq!(em.get(&store, &id_a(), &ty("follows"), &id_b()).unwrap(), None);
    let fwd = EdgeRangeManager::new();
    assert!(fwd.iterate_for_owner(&store, &id_a()).unwrap().is_empty());
    let rev = EdgeRangeManager::new_reversed();
    assert!(rev.iterate_for_owner(&store, &id_b()).unwrap().is_empty());
    assert_eq!(
        pm.get(&store, &id_a(), &ty("follows"), &id_b(), &b"weight".to_vec()).unwrap(),
        None
    );
}

#[test]
fn vertex_delete_cascades_everywhere() {
    let mut store = store_with_edge(1_700_000_000_000);
    let vm = VertexManager::new();
    let vpm = VertexPropertyManager::new();
    let epm = EdgePropertyManager::new();
    let mut batch = WriteBatch::new();
    vpm.set(&mut batch, &id_a(), &b"name".to_vec(), &json_str("alice")).unwrap();
    epm.set(&mut batch, &id_a(), &ty("follows"), &id_b(), &b"weight".to_vec(), &json_str("high"))
        .unwrap();
    store.commit(batch);

    let mut batch = WriteBatch::new();
    vm.delete(&store, &mut batch, &id_a()).unwrap();
    store.commit(batch);

    assert!(!vm.contains(&store, &id_a()).unwrap());
    assert!(vm.contains(&store, &id_b()).unwrap());
    assert!(vpm.iterate_for_owner(&store, &id_a()).is_empty());
    let fwd = EdgeRangeManager::new();
    assert!(fwd.iterate_for_owner(&store, &id_a()).unwrap().is_empty());
    let rev = EdgeRangeManager::new_reversed();
    assert!(rev.iterate_for_owner(&store, &id_b()).unwrap().is_empty());
    let em = EdgeManager::new();
    assert_eq!(em.get(&store, &id_a(), &ty("follows"), &id_b()).unwrap(), None);
    assert_eq!(
        epm.get(&store, &id_a(), &ty("follows"), &id_b(), &b"weight".to_vec()).unwrap(),
        None
    );
}

#[test]
fn vertex_delete_from_the_inbound_side() {
    let mut store = store_with_edge(1_700_000_000_000);
    let vm = VertexManager::new();
    let mut batch = WriteBatch::new();
    vm.delete(&store, &mut batch, &id_b()).unwrap();
    store.commit(batch);

    assert!(vm.contains(&store, &id_a()).unwrap());
    assert!(!vm.contains(&store, &id_b()).unwrap());
    let em = EdgeManager::new();
    assert_eq!(em.get(&store, &id_a(), &ty("follows"), &id_b()).unwrap(), None);
    let fwd = EdgeRangeManager::new();
    assert!(fwd.iterate_for_owner(&store, &id_a()).unwrap().is_empty());
    let rev = EdgeRangeManager::new_reversed();
    assert!(rev.iterate_for_owner(&store, &id_b()).unwrap().is_empty());
}

#[test]
fn vertex_iterate_for_range_starts_at_the_id() {
    let mut store = MemStore::new();
    let vm = VertexManager::new();
    let mut batch = WriteBatch::new();
    vm.create(&mut batch, &Vertex::new(id_a(), ty("user"))).unwrap();
    vm.create(&mut batch, &Vertex::new(id_b(), ty("robot"))).unwrap();
    store.commit(batch);

    let items = vm.iterate_for_range(&store, &id_a()).unwrap();
    assert_eq!(items.len(), 2);
    let items = vm.iterate_for_range(&store, &id_b()).unwrap();
    assert_eq!(items, vec![(id_b(), ty("robot"))]);
    let items = vm.iterate_for_range(&store, &Id::new([0x33; 16])).unwrap();
    assert!(items.is_empty());
}

#[test]
fn malformed_vertex_value_is_a_schema_violation() {
    let mut store = MemStore::new();
    let mut batch = WriteBatch::new();
    batch.stage_put(Cf::Vertices, vec![0x11; 16], vec![0, 0xff]);
    store.commit(batch);
    let vm = VertexManager::new();
    assert_eq!(vm.get(&store, &id_a()), Err(Error::SchemaViolation));
}

#[test]
fn malformed_edge_value_is_a_schema_violation() {
    let mut store = MemStore::new();
    let mut batch = WriteBatch::new();
    let key = graphstore::codec::build_edge_key(&id_a(), &ty("follows"), &id_b());
    batch.stage_put(Cf::Edges, key, vec![1, 2, 3]);
    store.commit(batch);
    let em = EdgeManager::new();
    assert_eq!(em.get(&store, &id_a(), &ty("follows"), &id_b()), Err(Error::SchemaViolation));
}

#[test]
fn malformed_range_key_is_a_schema_violation() {
    let mut store = MemStore::new();
    let mut batch = WriteBatch::new();
    let mut key = vec![0x11; 16];
    key.push(0);
    batch.stage_put(Cf::EdgeRanges, key, Vec::new());
    store.commit(batch);
    let fwd = EdgeRangeManager::new();
    assert_eq!(fwd.iterate_for_owner(&store, &id_a()), Err(Error::SchemaViolation));
}

#[test]
fn unparseable_property_bytes_are_a_json_decode_error() {
    let mut store = MemStore::new();
    let mut batch = WriteBatch::new();
    let key = graphstore::codec::build_vertex_prop_key(&id_a(), &b"name".to_vec());
    batch.stage_put(Cf::VertexProperties, key, b"not json".to_vec());
    store.commit(batch);
    let pm = VertexPropertyManager::new();
    assert_eq!(pm.get(&store, &id_a(), &b"name".to_vec()), Err(Error::JsonDecode));
    let items = pm.iterate_for_owner(&store, &id_a());
    assert_eq!(items.len(), 1);
    assert_eq!(items[0].0 .1, b"name".to_vec());
    assert_eq!(items[0].1, Err(Error::JsonDecode));
}

#[test]
fn one_bad_property_row_does_not_hide_the_rest() {
    let mut store = MemStore::new();
    let pm = VertexPropertyManager::new();
    let mut batch = WriteBatch::new();
    pm.set(&mut batch, &id_a(), &b"bio".to_vec(), &json_str("hello")).unwrap();
    let key = graphstore::codec::build_vertex_prop_key(&id_a(), &b"avatar".to_vec());
    batch.stage_put(Cf::VertexProperties, key, b"not json".to_vec());
    store.commit(batch);

    let items = pm.iterate_for_owner(&store, &id_a());
    assert_eq!(items.len(), 2);
    // names come in byte order: "avatar" before "bio"
    assert_eq!(items[0].0 .1, b"avatar".to_vec());
    assert_eq!(items[0].1, Err(Error::JsonDecode));
    assert_eq!(items[1].0 .1, b"bio".to_vec());
    assert_eq!(items[1].1, Ok(json_str("hello")));
}

#[test]
fn typed_range_scan_is_newest_first() {
    let mut store = MemStore::new();
    let em = EdgeManager::new();
    let id_c = Id::new([0x33; 16]);
    let mut batch = WriteBatch::new();
    em.set(&store, &mut batch, &id_a(), &ty("follows"), &id_b(), Datetime::new(2000)).unwrap();
    store.commit(batch);
    let mut batch = WriteBatch::new();
    em.set(&store, &mut batch, &id_a(), &ty("follows"), &id_c, Datetime::new(1000)).unwrap();
    store.commit(batch);

    let fwd = EdgeRangeManager::new();
    let rows = fwd.iterate_for_range(&store, &id_a(), Some(&ty("follows")), None).unwrap();
    assert_eq!(
        rows,
        vec![
            (id_a(), ty("follows"), Datetime::new(2000), id_b()),
            (id_a(), ty("follows"), Datetime::new(1000), id_c),
        ]
    );
    let rows = fwd
        .iterate_for_range(&store, &id_a(), Some(&ty("follows")), Some(Datetime::new(1500)))
        .unwrap();
    assert_eq!(rows, vec![(id_a(), ty("follows"), Datetime::new(1000), id_c)]);
}

#[test]
fn column_family_names_are_stable() {
    assert_eq!(Cf::Vertices.name(), "vertices:v1");
    assert_eq!(Cf::Edges.name(), "edges:v1");
    assert_eq!(Cf::EdgeRanges.name(), "edge_ranges:v1");
    assert_eq!(Cf::ReversedEdgeRanges.name(), "reversed_edge_ranges:v1");
    assert_eq!(Cf::VertexProperties.name(), "vertex_properties:v1");
    assert_eq!(Cf::EdgeProperties.name(), "edge_properties:v1");
}
