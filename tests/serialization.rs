use vectordb_core::cache::HNSWIndexCache;
use vectordb_core::codec::{deserialize_record, serialize_record};
use vectordb_core::equality::EqualityTester;
use vectordb_core::lazy_item::ProbLazyItem;
use vectordb_core::node::{PropLocation, ProbNode};
use vectordb_core::types::{FileIndex, FileOffset, MetricResult, VersionHash};

const NODE_SIZE: u32 = 59 + 19 * 8 + 81;

fn create_prob_node(id: u64) -> ProbNode {
    ProbNode::new(
        2,
        PropLocation { offset: id * 16, len: 16 },
        None,
        None,
        None,
        8,
    )
}

fn locator(offset: u32, version_number: u16, version_id: u32) -> FileIndex {
    FileIndex { offset: FileOffset(offset), version_number, version_id: VersionHash(version_id) }
}

/// Writes the record of each handle at its own offset of one file.
fn write_all(cache: &HNSWIndexCache, handles: &[usize]) -> Vec<u8> {
    let mut file: Vec<u8> = Vec::new();
    for &h in handles {
        let loc = cache.get_item(h).get_file_index();
        let rec = cache.record_of(h).unwrap();
        let bytes = serialize_record(&rec).unwrap();
        let end = loc.offset.0 as usize + bytes.len();
        if file.len() < end {
            file.resize(end, 0);
        }
        file[loc.offset.0 as usize..end].copy_from_slice(&bytes);
    }
    file
}

/// Loads the record at `loc` from the file, the way a cache miss reads it.
fn load(cache: &mut HNSWIndexCache, file: &[u8], loc: FileIndex) -> usize {
    let bytes = file[loc.offset.0 as usize..].to_vec();
    cache.load_item(&bytes, loc).unwrap()
}

/// Loads every pending item of the cache from the file until none is left.
fn load_closure(cache: &mut HNSWIndexCache, file: &[u8]) {
    let mut i = 0;
    while i < cache.item_count() {
        let loc = cache.get_item(i).get_file_index();
        if cache.get_object(loc).is_none() {
            load(cache, file, loc);
        }
        i += 1;
    }
}

/// Deep comparison that walks parent, child, neighbors and versions once.
fn assert_deep_eq(
    c1: &HNSWIndexCache,
    h1: usize,
    c2: &HNSWIndexCache,
    h2: usize,
    tester: &mut EqualityTester,
) {
    let r1 = c1.resolve(h1).unwrap();
    let r2 = c2.resolve(h2).unwrap();
    if !tester.insert(r1, r2) {
        return;
    }
    assert_eq!(c1.get_item(r1).get_file_index(), c2.get_item(r2).get_file_index());
    assert_eq!(c1.record_of(r1).unwrap(), c2.record_of(r2).unwrap());
    let d1 = c1.try_get_data(r1).unwrap();
    let d2 = c2.try_get_data(r2).unwrap();
    assert_eq!(d1.hnsw_level, d2.hnsw_level);
    assert_eq!(d1.prop_value, d2.prop_value);
    match (d1.get_parent(), d2.get_parent()) {
        (Some(a), Some(b)) => assert_deep_eq(c1, a, c2, b, tester),
        (None, None) => {}
        _ => panic!("parent links differ"),
    }
    match (d1.get_child(), d2.get_child()) {
        (Some(a), Some(b)) => assert_deep_eq(c1, a, c2, b, tester),
        (None, None) => {}
        _ => panic!("child links differ"),
    }
    assert_eq!(d1.get_neighbors_raw().len(), d2.get_neighbors_raw().len());
    for i in 0..d1.get_neighbors_raw().len() {
        match (d1.get_neighbors_raw()[i], d2.get_neighbors_raw()[i]) {
            (Some(a), Some(b)) => {
                assert_eq!(a.id, b.id);
                assert_eq!(a.dist, b.dist);
                assert_deep_eq(c1, a.node, c2, b.node, tester);
            }
            (None, None) => {}
            _ => panic!("neighbor slots differ"),
        }
    }
    assert_eq!(d1.versions.len(), d2.versions.len());
    for i in 0..d1.versions.len() {
        assert_deep_eq(c1, d1.versions[i], c2, d2.versions[i], tester);
    }
}

#[test]
fn test_lazy_item_serialization() {
    let mut cache = HNSWIndexCache::new();
    let item = ProbLazyItem::new(create_prob_node(0), VersionHash(0), 0, false, FileOffset(0));
    let h = cache.add_item(item).unwrap();
    let file = write_all(&cache, &[h]);

    let mut loaded = HNSWIndexCache::new();
    let d = load(&mut loaded, &file, locator(0, 0, 0));
    let mut tester = EqualityTester::new();
    assert_deep_eq(&cache, h, &loaded, d, &mut tester);
}

#[test]
fn test_prob_node_acyclic_serialization() {
    let mut cache = HNSWIndexCache::new();
    let node = create_prob_node(0);
    let h = cache
        .add_item(ProbLazyItem::new(node, VersionHash(0), 0, false, FileOffset(0)))
        .unwrap();
    let rec = cache.record_of(h).unwrap();
    let bytes = serialize_record(&rec).unwrap();
    assert_eq!(bytes.len(), NODE_SIZE as usize);
    let back = deserialize_record(&bytes).unwrap();
    assert_eq!(back, rec);
    assert_eq!(back.hnsw_level, 2);
    assert_eq!(back.neighbors.len(), 8);
    assert!(back.parent.is_none() && back.child.is_none());
}

#[test]
fn test_prob_lazy_item_array_serialization() {
    let mut cache = HNSWIndexCache::new();
    let mut handles = Vec::new();
    // Five versions, slot i holding the version 4^i above the owner.
    for i in 0..5u32 {
        let version = 4u16.pow(i);
        let item = ProbLazyItem::new(
            create_prob_node(i as u64),
            VersionHash(version as u32),
            version,
            false,
            FileOffset(NODE_SIZE * (i + 1)),
        );
        handles.push(cache.add_item(item).unwrap());
    }
    let mut owner = create_prob_node(100);
    owner.versions = handles.clone();
    let offset = NODE_SIZE * 6 + 80;
    let owner_h = cache
        .add_item(ProbLazyItem::new(owner, VersionHash(0), 0, false, FileOffset(offset)))
        .unwrap();
    let mut all = vec![owner_h];
    all.extend(handles.iter().copied());
    let file = write_all(&cache, &all);

    let mut loaded = HNSWIndexCache::new();
    let d = load(&mut loaded, &file, locator(offset, 0, 0));
    load_closure(&mut loaded, &file);
    assert_eq!(loaded.try_get_data(d).unwrap().versions.len(), 5);
    let mut tester = EqualityTester::new();
    assert_deep_eq(&cache, owner_h, &loaded, d, &mut tester);
}

#[test]
fn test_prob_node_serialization_with_neighbors() {
    let mut cache = HNSWIndexCache::new();
    let mut root = create_prob_node(0);
    let mut handles = Vec::new();
    for i in 1..11u32 {
        let item = ProbLazyItem::new(
            create_prob_node(i as u64),
            VersionHash(0),
            0,
            false,
            FileOffset(NODE_SIZE * i),
        );
        let h = cache.add_item(item).unwrap();
        // i / 10 as a similarity, kept as an integer key.
        root.add_neighbor(i, h, MetricResult::CosineSimilarity(i as i32));
        handles.push(h);
    }
    let root_h = cache
        .add_item(ProbLazyItem::new(root, VersionHash(0), 0, false, FileOffset(0)))
        .unwrap();
    let mut all = vec![root_h];
    all.extend(handles.iter().copied());
    let file = write_all(&cache, &all);

    let mut loaded = HNSWIndexCache::new();
    let d = load(&mut loaded, &file, locator(0, 0, 0));
    load_closure(&mut loaded, &file);
    let mut tester = EqualityTester::new();
    assert_deep_eq(&cache, root_h, &loaded, d, &mut tester);

    let ids: Vec<u32> = loaded
        .try_get_data(d)
        .unwrap()
        .get_neighbors_raw()
        .iter()
        .map(|n| n.unwrap().id)
        .collect();
    let mut sorted = ids.clone();
    sorted.sort();
    assert_eq!(sorted, (3..11).collect::<Vec<u32>>());
}

#[test]
fn test_prob_lazy_item_cyclic_serialization() {
    let mut cache = HNSWIndexCache::new();
    let loc0 = locator(0, 0, 0);
    let loc1 = locator(NODE_SIZE, 0, 0);
    // Each node links to the other through a pending handle.
    let p1 = cache.handle_for(loc1, false);
    let p0 = cache.handle_for(loc0, false);
    let mut node0 = ProbNode::new(0, PropLocation { offset: 0, len: 16 }, None, None, None, 8);
    assert!(node0.set_parent(p1));
    let mut node1 = ProbNode::new(1, PropLocation { offset: 16, len: 16 }, None, None, None, 8);
    assert!(node1.set_child(p0));
    let h0 = cache
        .add_item(ProbLazyItem::new(node0, VersionHash(0), 0, false, FileOffset(0)))
        .unwrap();
    let h1 = cache
        .add_item(ProbLazyItem::new(node1, VersionHash(0), 0, false, FileOffset(NODE_SIZE)))
        .unwrap();
    let file = write_all(&cache, &[h0, h1]);

    let mut loaded = HNSWIndexCache::new();
    let d = load(&mut loaded, &file, loc0);
    load_closure(&mut loaded, &file);
    let mut tester = EqualityTester::new();
    assert_deep_eq(&cache, h0, &loaded, d, &mut tester);

    let data0 = loaded.try_get_data(d).unwrap();
    let parent = data0.get_parent().unwrap();
    let data1 = loaded.try_get_data(parent).unwrap();
    let back = data1.get_child().unwrap();
    assert_eq!(loaded.resolve(back).unwrap(), d);
}

fn validate_lazy_item_versions(cache: &HNSWIndexCache, h: usize, version_number: u16) {
    let data = cache.try_get_data(h).unwrap();
    for i in 0..data.versions.len() {
        let v = data.versions[i];
        let current = cache.get_item(v).get_current_version_number();
        assert_eq!(current - version_number, 4_u16.pow(i as u32));
        validate_lazy_item_versions(cache, v, current);
    }
}

#[test]
fn test_prob_lazy_item_with_versions_serialization_and_validation() {
    let mut cache = HNSWIndexCache::new();
    let root = cache
        .add_item(ProbLazyItem::new(create_prob_node(0), VersionHash(0), 0, false, FileOffset(0)))
        .unwrap();
    let mut nodes = vec![root];
    for i in 1..=100u16 {
        let next = cache
            .add_item(ProbLazyItem::new(
                create_prob_node(0),
                VersionHash(i as u32),
                i,
                false,
                FileOffset(NODE_SIZE * i as u32),
            ))
            .unwrap();
        cache
            .add_version(root, next)
            .unwrap()
            .map_err(|_| "unable to insert neighbor")
            .unwrap();
        nodes.push(next);
    }

    validate_lazy_item_versions(&cache, root, 0);
    assert_eq!(cache.try_get_data(root).unwrap().versions.len(), 4);

    let file = write_all(&cache, &nodes);
    let mut loaded = HNSWIndexCache::new();
    let d = load(&mut loaded, &file, locator(0, 0, 0));
    load_closure(&mut loaded, &file);

    validate_lazy_item_versions(&loaded, d, 0);
    let mut tester = EqualityTester::new();
    assert_deep_eq(&cache, root, &loaded, d, &mut tester);
}
