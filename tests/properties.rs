use vectordb_core::cache::HNSWIndexCache;
use vectordb_core::codec::{deserialize_record, serialize_record, NeighborRecord, NodeRecord};
use vectordb_core::dto::{vector_kind, DtoError, SparseField, SparseFieldSet, VectorKind};
use vectordb_core::equality::EqualityTester;
use vectordb_core::lazy_item::{largest_power_of_4_below, ProbLazyItem, ProbLazyItemState, ReadyState};
use vectordb_core::node::{Neighbor, PropLocation, ProbNode};
use vectordb_core::types::{CoreError, FileIndex, FileOffset, MetricResult, VersionHash};

fn node(level: u8, slots: usize) -> ProbNode {
    ProbNode::new(level, PropLocation { offset: 0, len: 8 }, None, None, None, slots)
}

fn locator(offset: u32, version_number: u16, version_id: u32) -> FileIndex {
    FileIndex { offset: FileOffset(offset), version_number, version_id: VersionHash(version_id) }
}

fn ready(cache: &mut HNSWIndexCache, version: u16) -> usize {
    cache
        .add_item(ProbLazyItem::new(
            node(0, 4),
            VersionHash(version as u32),
            version,
            false,
            FileOffset(1000 * version as u32),
        ))
        .unwrap()
}

#[test]
fn power_of_4_exact_values() {
    assert_eq!(largest_power_of_4_below(1), 0);
    assert_eq!(largest_power_of_4_below(3), 0);
    assert_eq!(largest_power_of_4_below(4), 1);
    assert_eq!(largest_power_of_4_below(15), 1);
    assert_eq!(largest_power_of_4_below(16), 2);
    assert_eq!(largest_power_of_4_below(63), 2);
    assert_eq!(largest_power_of_4_below(64), 3);
    assert_eq!(largest_power_of_4_below(16383), 6);
    assert_eq!(largest_power_of_4_below(16384), 7);
    assert_eq!(largest_power_of_4_below(65535), 7);
}

#[test]
fn power_of_4_brackets_every_input() {
    for x in 1..=u16::MAX {
        let r = largest_power_of_4_below(x) as u32;
        assert!(4u64.pow(r) <= x as u64 && (x as u64) < 4u64.pow(r + 1));
    }
}

#[test]
fn state_accessors() {
    let pending: ProbLazyItem<u8> = ProbLazyItem::new_pending(locator(5, 3, 9), true);
    assert!(pending.is_pending() && !pending.is_ready());
    assert!(pending.get_lazy_data().is_none());
    assert_eq!(pending.get_current_version_number(), 3);
    assert_eq!(pending.get_current_version_id(), VersionHash(9));
    assert_eq!(pending.get_file_index(), locator(5, 3, 9));

    let mut item = ProbLazyItem::new_from_state(ProbLazyItemState::Pending(locator(5, 3, 9)), true);
    item.set_state(ProbLazyItemState::Ready(ReadyState {
        data: 42u8,
        file_offset: FileOffset(5),
        version_id: VersionHash(9),
        version_number: 3,
    }));
    assert!(item.is_ready());
    assert_eq!(item.get_lazy_data(), Some(&42u8));
    assert_eq!(item.get_file_index(), locator(5, 3, 9));
    assert_eq!(item.unsafe_get_state().get_version_number(), 3);
    assert_eq!(item.unsafe_get_state().get_version_id(), VersionHash(9));
    assert!(item.is_level_0);

    let a = ProbLazyItem::new(1u8, VersionHash(1), 1, false, FileOffset(0));
    let b = ProbLazyItem::new(1u8, VersionHash(1), 1, false, FileOffset(0));
    let c = ProbLazyItem::new(1u8, VersionHash(1), 1, true, FileOffset(0));
    assert!(a == b);
    assert!(a != c);
}

#[test]
fn version_chain_spacing_and_walks() {
    let mut cache = HNSWIndexCache::new();
    let root = ready(&mut cache, 0);
    let mut handles = vec![root];
    for v in 1..=100u16 {
        let h = ready(&mut cache, v);
        let owner = cache.add_version(root, h).unwrap().unwrap();
        let data = cache.try_get_data(owner).unwrap();
        let slot = data.versions.len() - 1;
        assert_eq!(data.versions[slot], h);
        assert_eq!(
            v - cache.get_item(owner).get_current_version_number(),
            4u16.pow(slot as u32)
        );
        handles.push(h);
    }
    // Root slots hold versions 1, 4, 16 and 64.
    let root_versions: Vec<u16> = cache
        .try_get_data(root)
        .unwrap()
        .versions
        .iter()
        .map(|&h| cache.get_item(h).get_current_version_number())
        .collect();
    assert_eq!(root_versions, vec![1, 4, 16, 64]);

    let (latest, rel) = cache.get_latest_version(root).unwrap();
    assert_eq!(rel, 100);
    assert_eq!(latest, handles[100]);

    for v in 0..=100u16 {
        assert_eq!(cache.get_version(root, v).unwrap(), Some(handles[v as usize]));
    }
    assert_eq!(cache.get_version(root, 101).unwrap(), None);
    assert_eq!(cache.get_version(handles[5], 2).unwrap(), None);
}

#[test]
fn add_version_rejects_gaps() {
    let mut cache = HNSWIndexCache::new();
    let root = ready(&mut cache, 0);
    let one = ready(&mut cache, 1);
    assert_eq!(cache.add_version(root, one).unwrap(), Ok(root));
    let three = ready(&mut cache, 3);
    assert_eq!(cache.add_version(root, three), Err(CoreError::InvariantViolation));
    let two = ready(&mut cache, 2);
    assert_eq!(cache.add_version(root, two).unwrap(), Ok(one));
    let (latest, rel) = cache.get_latest_version(root).unwrap();
    assert_eq!((latest, rel), (two, 2));
}

#[test]
fn add_version_reports_the_existing_version() {
    let mut cache = HNSWIndexCache::new();
    let root = ready(&mut cache, 0);
    let mut handles = vec![root];
    for v in 1..=20u16 {
        let h = ready(&mut cache, v);
        assert!(cache.add_version(root, h).unwrap().is_ok());
        handles.push(h);
    }
    // A second node for version 17 meets the node already there.
    let again = cache
        .add_item(ProbLazyItem::new(node(0, 4), VersionHash(17), 17, false, FileOffset(99_999)))
        .unwrap();
    assert_eq!(cache.add_version(root, again).unwrap(), Err(handles[17]));
    assert_eq!(cache.get_latest_version(root).unwrap(), (handles[20], 20));
    assert_eq!(cache.get_version(root, 50).unwrap(), None);
}

#[test]
fn add_version_through_pending_handle_is_not_loaded() {
    let mut cache = HNSWIndexCache::new();
    let pending = cache.handle_for(locator(0, 0, 0), false);
    let next = ready(&mut cache, 1);
    assert_eq!(
        cache.add_version(pending, next),
        Err(CoreError::NotLoaded(locator(0, 0, 0)))
    );
    assert_eq!(cache.try_get_data(pending).err(), Some(CoreError::NotLoaded(locator(0, 0, 0))));
}

#[test]
fn add_item_refuses_duplicates_and_bad_chains() {
    let mut cache = HNSWIndexCache::new();
    let a = ready(&mut cache, 0);
    let dup = ProbLazyItem::new(node(0, 1), VersionHash(0), 0, false, FileOffset(0));
    assert_eq!(cache.add_item(dup), Err(CoreError::InvariantViolation));
    let mut bad = node(0, 1);
    bad.versions.push(a);
    let item = ProbLazyItem::new(bad, VersionHash(7), 7, false, FileOffset(7));
    assert_eq!(cache.add_item(item), Err(CoreError::InvariantViolation));
    assert_eq!(cache.item_count(), 1);
}

#[test]
fn root_version_resolution() {
    let mut cache = HNSWIndexCache::new();
    let root = ready(&mut cache, 0);
    let mut n = node(0, 1);
    n.root_version = Some(root);
    let h = cache
        .add_item(ProbLazyItem::new(n, VersionHash(3), 3, false, FileOffset(3)))
        .unwrap();
    assert_eq!(cache.get_root_version(h).unwrap(), root);
    assert_eq!(cache.get_root_version(root).unwrap(), root);
}

#[test]
fn neighbor_overwrite_keeps_best_eight() {
    let mut n = node(0, 8);
    for i in 1..=10u32 {
        let before = worst(&n);
        n.add_neighbor(i, i as usize, MetricResult::CosineSimilarity(i as i32));
        assert!(worst(&n) >= before);
    }
    let mut ids: Vec<u32> = n.get_neighbors_raw().iter().map(|s| s.unwrap().id).collect();
    ids.sort();
    assert_eq!(ids, vec![3, 4, 5, 6, 7, 8, 9, 10]);
}

fn worst(n: &ProbNode) -> i64 {
    n.get_neighbors_raw()
        .iter()
        .map(|s| match s {
            Some(x) => x.dist.quality(),
            None => i64::MIN,
        })
        .min()
        .unwrap()
}

#[test]
fn neighbor_distance_metric_prefers_smaller() {
    let mut n = node(0, 2);
    n.add_neighbor(1, 1, MetricResult::EuclideanDistance(10));
    n.add_neighbor(2, 2, MetricResult::EuclideanDistance(5));
    n.add_neighbor(3, 3, MetricResult::EuclideanDistance(7));
    let slots = n.get_neighbors_raw();
    assert_eq!(slots[0], Some(Neighbor { id: 3, node: 3, dist: MetricResult::EuclideanDistance(7) }));
    assert_eq!(slots[1], Some(Neighbor { id: 2, node: 2, dist: MetricResult::EuclideanDistance(5) }));
    n.add_neighbor(4, 4, MetricResult::EuclideanDistance(9));
    assert_eq!(n.get_neighbors_raw()[0].unwrap().id, 3);
    assert!(MetricResult::CosineSimilarity(2).is_better_than(&MetricResult::CosineSimilarity(1)));
    assert!(MetricResult::CosineDistance(1).is_better_than(&MetricResult::CosineDistance(2)));
}

#[test]
fn parent_and_child_are_set_once() {
    let mut n = node(1, 1);
    assert!(n.set_parent(4));
    assert!(!n.set_parent(5));
    assert_eq!(n.get_parent(), Some(4));
    assert!(n.set_child(6));
    assert!(!n.set_child(7));
    assert_eq!(n.get_child(), Some(6));
}

fn sample_record() -> NodeRecord {
    NodeRecord {
        is_level_0: true,
        hnsw_level: 0,
        prop_value: PropLocation { offset: 0x0102_0304_0506_0708, len: 77 },
        prop_metadata: Some(PropLocation { offset: 9, len: 10 }),
        parent: Some(locator(11, 1, 2)),
        child: None,
        root_version: Some(locator(0, 0, 5)),
        neighbors: vec![
            Some(NeighborRecord {
                id: 4,
                loc: locator(300, 2, 3),
                dist: MetricResult::DotProductDistance(-17),
            }),
            None,
        ],
        versions: vec![locator(500, 1, 1), locator(600, 4, 4)],
    }
}

#[test]
fn record_round_trip_and_layout() {
    let rec = sample_record();
    let bytes = serialize_record(&rec).unwrap();
    assert_eq!(bytes.len(), 59 + 19 * 2 + 81);
    assert_eq!(bytes[0], 1);
    assert_eq!(&bytes[2..10], &[8, 7, 6, 5, 4, 3, 2, 1]);
    // The absent child is the sentinel locator.
    assert_eq!(&bytes[37..47], &[0xff, 0xff, 0xff, 0xff, 0, 0, 0, 0, 0, 0]);
    assert_eq!(&bytes[57..59], &[2, 0]);
    assert_eq!(deserialize_record(&bytes).unwrap(), rec);
}

#[test]
fn record_decode_errors() {
    let rec = sample_record();
    let bytes = serialize_record(&rec).unwrap();
    assert_eq!(deserialize_record(&bytes[..58].to_vec()), Err(CoreError::Serialization));
    assert_eq!(deserialize_record(&bytes[..bytes.len() - 1].to_vec()), Err(CoreError::Serialization));
    let mut bad_flag = bytes.clone();
    bad_flag[0] = 2;
    assert_eq!(deserialize_record(&bad_flag), Err(CoreError::Serialization));
    let mut bad_tag = bytes.clone();
    bad_tag[59 + 14] = 9;
    assert_eq!(deserialize_record(&bad_tag), Err(CoreError::Serialization));
    let mut bad_count = bytes.clone();
    bad_count[59 + 38] = 9;
    assert_eq!(deserialize_record(&bad_count), Err(CoreError::Serialization));
    let mut too_many = sample_record();
    for i in 0..7 {
        too_many.versions.push(locator(i, 0, 0));
    }
    assert_eq!(serialize_record(&too_many), Err(CoreError::Serialization));
}

#[test]
fn load_item_is_identity_mapped() {
    let rec = sample_record();
    let bytes = serialize_record(&rec).unwrap();
    let mut cache = HNSWIndexCache::new();
    let loc = locator(40, 7, 7);
    // The version slots must be 4^i ahead of the loaded node.
    assert_eq!(cache.load_item(&bytes, loc), Err(CoreError::InvariantViolation));
    let mut fixed = sample_record();
    fixed.versions = vec![locator(500, 8, 1), locator(600, 11, 4)];
    let bytes = serialize_record(&fixed).unwrap();
    let h = cache.load_item(&bytes, loc).unwrap();
    let count = cache.item_count();
    assert_eq!(cache.load_item(&vec![], loc), Ok(h));
    assert_eq!(cache.item_count(), count);
    assert_eq!(cache.record_of(h).unwrap(), fixed);
    assert_eq!(cache.load_item(&vec![1, 2, 3], locator(1, 1, 1)), Err(CoreError::Serialization));
}

#[test]
fn equality_tester_visits_pairs_once() {
    let mut t = EqualityTester::new();
    assert!(t.insert(1, 2));
    assert!(!t.insert(1, 2));
    assert!(t.insert(2, 1));
}

#[test]
fn request_kind_selection() {
    assert_eq!(vector_kind(&"dense".to_string(), true), Ok(VectorKind::Dense));
    assert_eq!(vector_kind(&"sparse".to_string(), false), Ok(VectorKind::Sparse));
    assert_eq!(vector_kind(&"sparse".to_string(), true), Ok(VectorKind::SparseIdf));
    assert_eq!(vector_kind(&"foo".to_string(), false), Err(DtoError::UnknownVariant));
}

#[test]
fn sparse_request_fields() {
    let mut f = SparseFieldSet::new();
    assert_eq!(f.record_key(&"id".to_string()), Ok(SparseField::Id));
    assert_eq!(f.record_key(&"values".to_string()), Ok(SparseField::Values));
    assert_eq!(f.finish(), Err(DtoError::MissingField(SparseField::Indices)));
    assert_eq!(
        f.record_key(&"values".to_string()),
        Err(DtoError::DuplicateField(SparseField::Values))
    );
    assert_eq!(f.record_key(&"other".to_string()), Err(DtoError::UnknownField));
    assert_eq!(f.record_key(&"indices".to_string()), Ok(SparseField::Indices));
    assert_eq!(f.finish(), Ok(()));
}
