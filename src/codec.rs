use vstd::prelude::*;
use crate::node::PropLocation;
use crate::types::{CoreError, FileIndex, FileOffset, MetricResult, VersionHash};

verus! {

/// Byte `j` (little-endian) of a 16-bit value.
pub open spec fn u16_byte(x: u16, j: int) -> u8 {
    if j == 0 {
        x as u8
    } else {
        (x >> 8u16) as u8
    }
}

/// Byte `j` (little-endian) of a 32-bit value.
pub open spec fn u32_byte(x: u32, j: int) -> u8 {
    if j == 0 {
        x as u8
    } else if j == 1 {
        (x >> 8u32) as u8
    } else if j == 2 {
        (x >> 16u32) as u8
    } else {
        (x >> 24u32) as u8
    }
}

/// Byte `j` (little-endian) of a 64-bit value.
pub open spec fn u64_byte(x: u64, j: int) -> u8 {
    if j < 4 {
        u32_byte(x as u32, j)
    } else {
        u32_byte((x >> 32u64) as u32, j - 4)
    }
}

/// The 16-bit value of two little-endian bytes.
pub open spec fn u16_of(b0: u8, b1: u8) -> u16 {
    (b0 as u16) | ((b1 as u16) << 8u16)
}

/// The 32-bit value of four little-endian bytes.
pub open spec fn u32_of(b0: u8, b1: u8, b2: u8, b3: u8) -> u32 {
    (b0 as u32) | ((b1 as u32) << 8u32) | ((b2 as u32) << 16u32) | ((b3 as u32) << 24u32)
}

/// The 64-bit value of a low and a high 32-bit half.
pub open spec fn u64_of(lo: u32, hi: u32) -> u64 {
    (lo as u64) | ((hi as u64) << 32u64)
}

pub proof fn lemma_u16_round_trip(x: u16)
    ensures
        u16_of(u16_byte(x, 0), u16_byte(x, 1)) == x,
{
    assert(((x as u8) as u16) | ((((x >> 8u16) as u8) as u16) << 8u16) == x) by (bit_vector);
}

pub proof fn lemma_u32_round_trip(x: u32)
    ensures
        u32_of(u32_byte(x, 0), u32_byte(x, 1), u32_byte(x, 2), u32_byte(x, 3)) == x,
{
    assert(((x as u8) as u32) | ((((x >> 8u32) as u8) as u32) << 8u32) | ((((x >> 16u32) as u8) as u32)
        << 16u32) | ((((x >> 24u32) as u8) as u32) << 24u32) == x) by (bit_vector);
}

pub proof fn lemma_u64_round_trip(x: u64)
    ensures
        u64_of(
            u32_of(u64_byte(x, 0), u64_byte(x, 1), u64_byte(x, 2), u64_byte(x, 3)),
            u32_of(u64_byte(x, 4), u64_byte(x, 5), u64_byte(x, 6), u64_byte(x, 7)),
        ) == x,
{
    lemma_u32_round_trip(x as u32);
    lemma_u32_round_trip((x >> 32u64) as u32);
    assert(((x as u32) as u64) | ((((x >> 32u64) as u32) as u64) << 32u64) == x) by (bit_vector);
}

/// A neighbor slot as stored: the neighbor's id, its locator and distance.
#[derive(Clone, Copy, Debug, PartialEq, Eq, Structural)]
pub struct NeighborRecord {
    pub id: u32,
    pub loc: FileIndex,
    pub dist: MetricResult,
}

/// A lazy item holding a node, as stored: links are locators.
#[derive(Debug, PartialEq)]
pub struct NodeRecord {
    pub is_level_0: bool,
    pub hnsw_level: u8,
    pub prop_value: PropLocation,
    pub prop_metadata: Option<PropLocation>,
    pub parent: Option<FileIndex>,
    pub child: Option<FileIndex>,
    pub root_version: Option<FileIndex>,
    pub neighbors: Vec<Option<NeighborRecord>>,
    pub versions: Vec<FileIndex>,
}

/// The mathematical value of a `NodeRecord`.
pub struct NodeRecordView {
    pub is_level_0: bool,
    pub hnsw_level: u8,
    pub prop_value: PropLocation,
    pub prop_metadata: Option<PropLocation>,
    pub parent: Option<FileIndex>,
    pub child: Option<FileIndex>,
    pub root_version: Option<FileIndex>,
    pub neighbors: Seq<Option<NeighborRecord>>,
    pub versions: Seq<FileIndex>,
}

impl View for NodeRecord {
    type V = NodeRecordView;

    open spec fn view(&self) -> NodeRecordView {
        NodeRecordView {
            is_level_0: self.is_level_0,
            hnsw_level: self.hnsw_level,
            prop_value: self.prop_value,
            prop_metadata: self.prop_metadata,
            parent: self.parent,
            child: self.child,
            root_version: self.root_version,
            neighbors: self.neighbors@,
            versions: self.versions@,
        }
    }
}

/// The locator written for an absent link.
pub open spec fn sentinel() -> FileIndex {
    FileIndex { offset: FileOffset(0xffff_ffff), version_number: 0, version_id: VersionHash(0) }
}

/// Bytes of the header before the neighbor slots.
pub const HEADER_LEN: usize = 59;

/// Bytes of one neighbor slot.
pub const NEIGHBOR_LEN: usize = 19;

/// Bytes of one locator.
pub const LOCATOR_LEN: usize = 10;

/// Version slots written for every node.
pub const VERSION_CAPACITY: usize = 8;

/// Byte length of a record with `m` neighbor slots.
pub open spec fn record_len(m: int) -> int {
    HEADER_LEN + NEIGHBOR_LEN * m + 1 + LOCATOR_LEN * VERSION_CAPACITY
}

/// Byte `j` of a locator, the sentinel standing for an absent one.
pub open spec fn loc_byte(o: Option<FileIndex>, j: int) -> u8 {
    let f = match o {
        Some(f) => f,
        None => sentinel(),
    };
    if j < 4 {
        u32_byte(f.offset.0, j)
    } else if j < 6 {
        u16_byte(f.version_number, j - 4)
    } else {
        u32_byte(f.version_id.0, j - 6)
    }
}

/// The tag byte of a metric result.
pub open spec fn metric_tag(m: MetricResult) -> u8 {
    match m {
        MetricResult::CosineSimilarity(_) => 0,
        MetricResult::CosineDistance(_) => 1,
        MetricResult::EuclideanDistance(_) => 2,
        MetricResult::HammingDistance(_) => 3,
        MetricResult::DotProductDistance(_) => 4,
    }
}

/// The payload of a metric result.
pub open spec fn metric_payload(m: MetricResult) -> i32 {
    match m {
        MetricResult::CosineSimilarity(v) => v,
        MetricResult::CosineDistance(v) => v,
        MetricResult::EuclideanDistance(v) => v,
        MetricResult::HammingDistance(v) => v,
        MetricResult::DotProductDistance(v) => v,
    }
}

/// The metric result with a given tag and payload; none for an unknown tag.
pub open spec fn metric_of(tag: u8, v: i32) -> Option<MetricResult> {
    if tag == 0 {
        Some(MetricResult::CosineSimilarity(v))
    } else if tag == 1 {
        Some(MetricResult::CosineDistance(v))
    } else if tag == 2 {
        Some(MetricResult::EuclideanDistance(v))
    } else if tag == 3 {
        Some(MetricResult::HammingDistance(v))
    } else if tag == 4 {
        Some(MetricResult::DotProductDistance(v))
    } else {
        None
    }
}

/// Byte `j` of a neighbor slot: id, locator, then a tagged metric; an empty
/// slot has id zero, the sentinel and a zero metric.
pub open spec fn neighbor_byte(n: Option<NeighborRecord>, j: int) -> u8 {
    let (id, loc, dist) = match n {
        Some(r) => (r.id, Some(r.loc), r.dist),
        None => (0u32, None, MetricResult::CosineSimilarity(0)),
    };
    if j < 4 {
        u32_byte(id, j)
    } else if j < 14 {
        loc_byte(loc, j - 4)
    } else if j == 14 {
        metric_tag(dist)
    } else {
        u32_byte(metric_payload(dist) as u32, j - 15)
    }
}

/// Byte `j` of a property location: offset, then length.
pub open spec fn prop_byte(p: PropLocation, j: int) -> u8 {
    if j < 8 {
        u64_byte(p.offset, j)
    } else {
        u32_byte(p.len, j - 8)
    }
}

/// Byte `i` of the record of `v`.
pub open spec fn byte_at(v: NodeRecordView, i: int) -> u8 {
    let m = v.neighbors.len() as int;
    let vbase = HEADER_LEN + NEIGHBOR_LEN * m + 1;
    if i == 0 {
        if v.is_level_0 {
            1
        } else {
            0
        }
    } else if i == 1 {
        v.hnsw_level
    } else if i < 14 {
        prop_byte(v.prop_value, i - 2)
    } else if i == 14 {
        if v.prop_metadata is Some {
            1
        } else {
            0
        }
    } else if i < 27 {
        prop_byte(
            match v.prop_metadata {
                Some(p) => p,
                None => PropLocation { offset: 0, len: 0 },
            },
            i - 15,
        )
    } else if i < 37 {
        loc_byte(v.parent, i - 27)
    } else if i < 47 {
        loc_byte(v.child, i - 37)
    } else if i < 57 {
        loc_byte(v.root_version, i - 47)
    } else if i < 59 {
        u16_byte(m as u16, i - 57)
    } else if i < vbase - 1 {
        neighbor_byte(v.neighbors[(i - HEADER_LEN) / NEIGHBOR_LEN as int], (i - HEADER_LEN) % NEIGHBOR_LEN as int)
    } else if i == vbase - 1 {
        v.versions.len() as u8
    } else {
        let k = (i - vbase) / LOCATOR_LEN as int;
        loc_byte(
            if k < v.versions.len() {
                Some(v.versions[k])
            } else {
                None
            },
            (i - vbase) % LOCATOR_LEN as int,
        )
    }
}

/// The bytes of the record of `v`.
pub open spec fn encode_spec(v: NodeRecordView) -> Seq<u8> {
    Seq::new(record_len(v.neighbors.len() as int) as nat, |i: int| byte_at(v, i))
}

/// A record that the format can hold: at most `u16::MAX` neighbor slots, at
/// most eight versions, and no present link equal to the sentinel.
pub open spec fn encodable(v: NodeRecordView) -> bool {
    &&& v.neighbors.len() <= 0xffff
    &&& v.versions.len() <= VERSION_CAPACITY
    &&& v.parent != Some(sentinel())
    &&& v.child != Some(sentinel())
    &&& v.root_version != Some(sentinel())
    &&& forall|k: int| 0 <= k < v.neighbors.len() ==> match #[trigger] v.neighbors[k] {
        Some(r) => r.loc != sentinel(),
        None => true,
    }
    &&& forall|k: int| 0 <= k < v.versions.len() ==> #[trigger] v.versions[k] != sentinel()
}

/// The locator written at `p`; none for the sentinel.
pub open spec fn loc_at(s: Seq<u8>, p: int) -> Option<FileIndex> {
    let f = FileIndex {
        offset: FileOffset(u32_of(s[p], s[p + 1], s[p + 2], s[p + 3])),
        version_number: u16_of(s[p + 4], s[p + 5]),
        version_id: VersionHash(u32_of(s[p + 6], s[p + 7], s[p + 8], s[p + 9])),
    };
    if f == sentinel() {
        None
    } else {
        Some(f)
    }
}

/// The property location written at `p`.
pub open spec fn prop_at(s: Seq<u8>, p: int) -> PropLocation {
    PropLocation {
        offset: u64_of(
            u32_of(s[p], s[p + 1], s[p + 2], s[p + 3]),
            u32_of(s[p + 4], s[p + 5], s[p + 6], s[p + 7]),
        ),
        len: u32_of(s[p + 8], s[p + 9], s[p + 10], s[p + 11]),
    }
}

/// The neighbor slot written at `p`: `Some(None)` for an empty slot, `None`
/// for a filled slot whose metric tag is unknown.
pub open spec fn neighbor_at(s: Seq<u8>, p: int) -> Option<Option<NeighborRecord>> {
    match loc_at(s, p + 4) {
        None => Some(None),
        Some(loc) => match metric_of(s[p + 14], u32_of(s[p + 15], s[p + 16], s[p + 17], s[p + 18]) as i32) {
            Some(dist) => Some(Some(NeighborRecord { id: u32_of(s[p], s[p + 1], s[p + 2], s[p + 3]), loc, dist })),
            None => None,
        },
    }
}

/// Position of the version count in a record with `m` neighbor slots.
pub open spec fn vcount_pos(m: int) -> int {
    HEADER_LEN + NEIGHBOR_LEN * m
}

/// What the bytes `s` hold as a record, if they hold one: flag bytes must be
/// 0 or 1, the version count at most eight, every filled neighbor slot a
/// known metric tag, and every counted version slot a locator other than
/// the sentinel. Bytes after the record are ignored.
pub open spec fn decode_spec(s: Seq<u8>) -> Option<NodeRecordView> {
    if s.len() < HEADER_LEN {
        None
    } else {
        let m = u16_of(s[57], s[58]) as int;
        let vc = vcount_pos(m);
        if s.len() < record_len(m) || s[0] > 1 || s[14] > 1 || s[vc] > VERSION_CAPACITY {
            None
        } else if exists|k: int| 0 <= k < m && #[trigger] neighbor_at(s, HEADER_LEN + NEIGHBOR_LEN * k) is None {
            None
        } else if exists|k: int| 0 <= k < s[vc] && #[trigger] loc_at(s, vc + 1 + LOCATOR_LEN * k) is None {
            None
        } else {
            Some(NodeRecordView {
                is_level_0: s[0] == 1,
                hnsw_level: s[1],
                prop_value: prop_at(s, 2),
                prop_metadata: if s[14] == 1 {
                    Some(prop_at(s, 15))
                } else {
                    None
                },
                parent: loc_at(s, 27),
                child: loc_at(s, 37),
                root_version: loc_at(s, 47),
                neighbors: Seq::new(m as nat, |k: int| neighbor_at(s, HEADER_LEN + NEIGHBOR_LEN * k)->Some_0),
                versions: Seq::new(s[vc] as nat, |k: int| loc_at(s, vc + 1 + LOCATOR_LEN * k)->Some_0),
            })
        }
    }
}

/// Offset `b + w*k + j` of a region of `w`-byte cells splits back into cell
/// `k` and byte `j`.
pub proof fn lemma_cell(b: int, w: int, k: int, j: int)
    requires
        w > 0,
        0 <= j < w,
    ensures
        (b + w * k + j - b) / w == k,
        (b + w * k + j - b) % w == j,
{
    assert(w * k == k * w) by (nonlinear_arith);
    vstd::arithmetic::div_mod::lemma_fundamental_div_mod_converse(w * k + j, w, k, j);
}

/// Reading a locator back from its bytes gives the locator.
pub proof fn lemma_loc_round_trip(s: Seq<u8>, p: int, o: Option<FileIndex>)
    requires
        0 <= p,
        p + LOCATOR_LEN <= s.len(),
        o != Some(sentinel()),
        forall|j: int| 0 <= j < LOCATOR_LEN ==> s[p + j] == #[trigger] loc_byte(o, j),
    ensures
        loc_at(s, p) == o,
{
    let f = match o {
        Some(f) => f,
        None => sentinel(),
    };
    assert(s[p + 0] == loc_byte(o, 0));
    assert(s[p + 1] == loc_byte(o, 1));
    assert(s[p + 2] == loc_byte(o, 2));
    assert(s[p + 3] == loc_byte(o, 3));
    assert(s[p + 4] == loc_byte(o, 4));
    assert(s[p + 5] == loc_byte(o, 5));
    assert(s[p + 6] == loc_byte(o, 6));
    assert(s[p + 7] == loc_byte(o, 7));
    assert(s[p + 8] == loc_byte(o, 8));
    assert(s[p + 9] == loc_byte(o, 9));
    lemma_u32_round_trip(f.offset.0);
    lemma_u16_round_trip(f.version_number);
    lemma_u32_round_trip(f.version_id.0);
}

/// Reading a property location back from its bytes gives the location.
pub proof fn lemma_prop_round_trip(s: Seq<u8>, p: int, q: PropLocation)
    requires
        0 <= p,
        p + 12 <= s.len(),
        forall|j: int| 0 <= j < 12 ==> s[p + j] == #[trigger] prop_byte(q, j),
    ensures
        prop_at(s, p) == q,
{
    assert(s[p + 0] == prop_byte(q, 0));
    assert(s[p + 1] == prop_byte(q, 1));
    assert(s[p + 2] == prop_byte(q, 2));
    assert(s[p + 3] == prop_byte(q, 3));
    assert(s[p + 4] == prop_byte(q, 4));
    assert(s[p + 5] == prop_byte(q, 5));
    assert(s[p + 6] == prop_byte(q, 6));
    assert(s[p + 7] == prop_byte(q, 7));
    assert(s[p + 8] == prop_byte(q, 8));
    assert(s[p + 9] == prop_byte(q, 9));
    assert(s[p + 10] == prop_byte(q, 10));
    assert(s[p + 11] == prop_byte(q, 11));
    lemma_u64_round_trip(q.offset);
    lemma_u32_round_trip(q.len);
}

/// Reading a neighbor slot back from its bytes gives the slot.
pub proof fn lemma_neighbor_round_trip(s: Seq<u8>, p: int, n: Option<NeighborRecord>)
    requires
        0 <= p,
        p + NEIGHBOR_LEN <= s.len(),
        match n {
            Some(r) => r.loc != sentinel(),
            None => true,
        },
        forall|j: int| 0 <= j < NEIGHBOR_LEN ==> s[p + j] == #[trigger] neighbor_byte(n, j),
    ensures
        neighbor_at(s, p) == Some(n),
{
    let o = match n {
        Some(r) => Some(r.loc),
        None => None,
    };
    assert forall|j: int| 0 <= j < LOCATOR_LEN implies s[(p + 4) + j] == #[trigger] loc_byte(o, j) by {
        assert(s[p + (4 + j)] == neighbor_byte(n, 4 + j));
    }
    lemma_loc_round_trip(s, p + 4, o);
    if let Some(r) = n {
        assert(s[p + 0] == neighbor_byte(n, 0));
        assert(s[p + 1] == neighbor_byte(n, 1));
        assert(s[p + 2] == neighbor_byte(n, 2));
        assert(s[p + 3] == neighbor_byte(n, 3));
        assert(s[p + 14] == neighbor_byte(n, 14));
        assert(s[p + 15] == neighbor_byte(n, 15));
        assert(s[p + 16] == neighbor_byte(n, 16));
        assert(s[p + 17] == neighbor_byte(n, 17));
        assert(s[p + 18] == neighbor_byte(n, 18));
        lemma_u32_round_trip(r.id);
        let pl = metric_payload(r.dist);
        lemma_u32_round_trip(pl as u32);
        assert((pl as u32) as i32 == pl) by (bit_vector);
    }
}

/// Decoding the bytes of an encodable record gives the record back.
pub proof fn lemma_record_round_trip(v: NodeRecordView)
    requires
        encodable(v),
    ensures
        decode_spec(encode_spec(v)) == Some(v),
{
    let s = encode_spec(v);
    let m = v.neighbors.len() as int;
    let vc = vcount_pos(m);
    assert(s[57] == u16_byte(m as u16, 0));
    assert(s[58] == u16_byte(m as u16, 1));
    lemma_u16_round_trip(m as u16);
    assert(u16_of(s[57], s[58]) as int == m);
    assert(s[vc] == v.versions.len() as u8);
    lemma_prop_round_trip(s, 2, v.prop_value);
    let meta = match v.prop_metadata {
        Some(p) => p,
        None => PropLocation { offset: 0, len: 0 },
    };
    assert forall|j: int| 0 <= j < 12 implies s[15 + j] == #[trigger] prop_byte(meta, j) by {}
    lemma_prop_round_trip(s, 15, meta);
    assert forall|j: int| 0 <= j < LOCATOR_LEN implies s[27 + j] == #[trigger] loc_byte(v.parent, j) by {}
    lemma_loc_round_trip(s, 27, v.parent);
    assert forall|j: int| 0 <= j < LOCATOR_LEN implies s[37 + j] == #[trigger] loc_byte(v.child, j) by {}
    lemma_loc_round_trip(s, 37, v.child);
    assert forall|j: int| 0 <= j < LOCATOR_LEN implies s[47 + j] == #[trigger] loc_byte(v.root_version, j) by {}
    lemma_loc_round_trip(s, 47, v.root_version);
    assert forall|k: int| 0 <= k < m implies #[trigger] neighbor_at(s, HEADER_LEN + NEIGHBOR_LEN * k) == Some(v.neighbors[k]) by {
        let p = HEADER_LEN + NEIGHBOR_LEN * k;
        assert(p + NEIGHBOR_LEN <= vc) by (nonlinear_arith)
            requires p == HEADER_LEN + NEIGHBOR_LEN * k, k < m, vc == HEADER_LEN + NEIGHBOR_LEN * m;
        assert forall|j: int| 0 <= j < NEIGHBOR_LEN implies s[p + j] == #[trigger] neighbor_byte(v.neighbors[k], j) by {
            lemma_cell(HEADER_LEN as int, NEIGHBOR_LEN as int, k, j);
            assert(k >= 0 ==> 0 <= p);
        }
        lemma_neighbor_round_trip(s, p, v.neighbors[k]);
    }
    let vn = v.versions.len() as int;
    assert forall|k: int| 0 <= k < vn implies #[trigger] loc_at(s, vc + 1 + LOCATOR_LEN * k) == Some(v.versions[k]) by {
        let p = vc + 1 + LOCATOR_LEN * k;
        assert forall|j: int| 0 <= j < LOCATOR_LEN implies s[p + j] == #[trigger] loc_byte(Some(v.versions[k]), j) by {
            lemma_cell(vc + 1, LOCATOR_LEN as int, k, j);
        }
        lemma_loc_round_trip(s, p, Some(v.versions[k]));
    }
    let d = decode_spec(s)->Some_0;
    assert(d.neighbors =~= v.neighbors);
    assert(d.versions =~= v.versions);
}

fn read_u16(s: &Vec<u8>, p: usize) -> (r: u16)
    requires
        p + 2 <= s.len(),
    ensures
        r == u16_of(s@[p as int], s@[p + 1]),
{
    (s[p] as u16) | ((s[p + 1] as u16) << 8u16)
}

fn read_u32(s: &Vec<u8>, p: usize) -> (r: u32)
    requires
        p + 4 <= s.len(),
    ensures
        r == u32_of(s@[p as int], s@[p + 1], s@[p + 2], s@[p + 3]),
{
    (s[p] as u32) | ((s[p + 1] as u32) << 8u32) | ((s[p + 2] as u32) << 16u32) | ((s[p + 3] as u32)
        << 24u32)
}

fn read_u64(s: &Vec<u8>, p: usize) -> (r: u64)
    requires
        p + 8 <= s.len(),
    ensures
        r == u64_of(
            u32_of(s@[p as int], s@[p + 1], s@[p + 2], s@[p + 3]),
            u32_of(s@[p + 4], s@[p + 5], s@[p + 6], s@[p + 7]),
        ),
{
    let lo = read_u32(s, p);
    let hi = read_u32(s, p + 4);
    (lo as u64) | ((hi as u64) << 32u64)
}

fn put_u16(out: &mut Vec<u8>, x: u16)
    ensures
        final(out)@ == old(out)@ + seq![u16_byte(x, 0), u16_byte(x, 1)],
{
    out.push(x as u8);
    out.push((x >> 8u16) as u8);
    assert(final(out)@ =~= old(out)@ + seq![u16_byte(x, 0), u16_byte(x, 1)]);
}

fn put_u32(out: &mut Vec<u8>, x: u32)
    ensures
        final(out)@ == old(out)@ + seq![u32_byte(x, 0), u32_byte(x, 1), u32_byte(x, 2), u32_byte(x, 3)],
{
    out.push(x as u8);
    out.push((x >> 8u32) as u8);
    out.push((x >> 16u32) as u8);
    out.push((x >> 24u32) as u8);
    assert(final(out)@ =~= old(out)@ + seq![u32_byte(x, 0), u32_byte(x, 1), u32_byte(x, 2), u32_byte(x, 3)]);
}

/// `b` is `a` with `w` more bytes.
pub open spec fn extends(a: Seq<u8>, b: Seq<u8>, w: int) -> bool {
    &&& b.len() == a.len() + w
    &&& forall|i: int| 0 <= i < a.len() ==> b[i] == a[i]
}

/// Every byte of `out` is the byte of the record of `v` at its position.
pub open spec fn prefix_of(out: Seq<u8>, v: NodeRecordView) -> bool {
    forall|i: int| 0 <= i < out.len() ==> out[i] == #[trigger] byte_at(v, i)
}

fn put_loc(out: &mut Vec<u8>, o: Option<FileIndex>)
    ensures
        extends(old(out)@, final(out)@, LOCATOR_LEN as int),
        forall|j: int| 0 <= j < LOCATOR_LEN ==> final(out)@[old(out)@.len() + j] == #[trigger] loc_byte(o, j),
{
    let f = match o {
        Some(f) => f,
        None => FileIndex { offset: FileOffset(0xffff_ffff), version_number: 0, version_id: VersionHash(0) },
    };
    put_u32(out, f.offset.0);
    put_u16(out, f.version_number);
    put_u32(out, f.version_id.0);
}

fn put_prop(out: &mut Vec<u8>, q: PropLocation)
    ensures
        extends(old(out)@, final(out)@, 12),
        forall|j: int| 0 <= j < 12 ==> final(out)@[old(out)@.len() + j] == #[trigger] prop_byte(q, j),
{
    put_u32(out, q.offset as u32);
    put_u32(out, (q.offset >> 32u64) as u32);
    put_u32(out, q.len);
}

fn metric_parts(m: MetricResult) -> (r: (u8, i32))
    ensures
        r == (metric_tag(m), metric_payload(m)),
{
    match m {
        MetricResult::CosineSimilarity(v) => (0, v),
        MetricResult::CosineDistance(v) => (1, v),
        MetricResult::EuclideanDistance(v) => (2, v),
        MetricResult::HammingDistance(v) => (3, v),
        MetricResult::DotProductDistance(v) => (4, v),
    }
}

fn put_neighbor(out: &mut Vec<u8>, n: Option<NeighborRecord>)
    ensures
        extends(old(out)@, final(out)@, NEIGHBOR_LEN as int),
        forall|j: int| 0 <= j < NEIGHBOR_LEN ==> final(out)@[old(out)@.len() + j] == #[trigger] neighbor_byte(n, j),
{
    let (id, loc, dist) = match n {
        Some(r) => (r.id, Some(r.loc), r.dist),
        None => (0u32, None, MetricResult::CosineSimilarity(0)),
    };
    put_u32(out, id);
    put_loc(out, loc);
    let (tag, payload) = metric_parts(dist);
    out.push(tag);
    put_u32(out, payload as u32);
}

/// Writes a record: a fixed-width layout of `59 + 19 m + 81` bytes for `m`
/// neighbor slots. Refused when the slots do not fit a 16-bit count or the
/// versions do not fit the eight version slots.
pub fn serialize_record(r: &NodeRecord) -> (b: Result<Vec<u8>, CoreError>)
    ensures
        match b {
            Ok(b) => b@ == encode_spec(r@),
            Err(e) => e == CoreError::Serialization,
        },
        b is Ok <==> (r.neighbors@.len() <= 0xffff && r.versions@.len() <= VERSION_CAPACITY),
{
    let m = r.neighbors.len();
    let vlen = r.versions.len();
    if m > 0xffff || vlen > VERSION_CAPACITY {
        return Err(CoreError::Serialization);
    }
    let ghost v = r@;
    let mut out: Vec<u8> = Vec::new();
    out.push(if r.is_level_0 {
        1u8
    } else {
        0u8
    });
    out.push(r.hnsw_level);
    put_prop(&mut out, r.prop_value);
    assert(prefix_of(out@, v));
    let meta = match r.prop_metadata {
        Some(p) => p,
        None => PropLocation { offset: 0, len: 0 },
    };
    out.push(if r.prop_metadata.is_some() {
        1u8
    } else {
        0u8
    });
    put_prop(&mut out, meta);
    assert(prefix_of(out@, v));
    put_loc(&mut out, r.parent);
    assert(prefix_of(out@, v));
    put_loc(&mut out, r.child);
    assert(prefix_of(out@, v));
    put_loc(&mut out, r.root_version);
    assert(prefix_of(out@, v));
    put_u16(&mut out, m as u16);
    assert(prefix_of(out@, v));
    let mut k: usize = 0;
    while k < m
        invariant
            k <= m,
            m == v.neighbors.len(),
            m <= 0xffff,
            v == r@,
            out@.len() == HEADER_LEN + NEIGHBOR_LEN * k,
            prefix_of(out@, v),
        decreases m - k,
    {
        let ghost before = out@;
        put_neighbor(&mut out, r.neighbors[k]);
        assert forall|i: int| 0 <= i < out@.len() implies out@[i] == #[trigger] byte_at(v, i) by {
            if i >= before.len() {
                let j = i - before.len();
                lemma_cell(HEADER_LEN as int, NEIGHBOR_LEN as int, k as int, j);
                assert(out@[before.len() + j] == neighbor_byte(r.neighbors@[k as int], j));
            } else {
                assert(out@[i] == before[i]);
            }
        }
        k = k + 1;
    }
    out.push(vlen as u8);
    assert(prefix_of(out@, v));
    let mut k: usize = 0;
    while k < VERSION_CAPACITY
        invariant
            k <= VERSION_CAPACITY,
            m == v.neighbors.len(),
            vlen == v.versions.len(),
            vlen <= VERSION_CAPACITY,
            v == r@,
            out@.len() == HEADER_LEN + NEIGHBOR_LEN * m + 1 + LOCATOR_LEN * k,
            prefix_of(out@, v),
        decreases VERSION_CAPACITY - k,
    {
        let ghost before = out@;
        let o = if k < vlen {
            Some(r.versions[k])
        } else {
            None
        };
        put_loc(&mut out, o);
        assert forall|i: int| 0 <= i < out@.len() implies out@[i] == #[trigger] byte_at(v, i) by {
            if i >= before.len() {
                let j = i - before.len();
                lemma_cell(HEADER_LEN + NEIGHBOR_LEN * m + 1, LOCATOR_LEN as int, k as int, j);
                assert(out@[before.len() + j] == loc_byte(o, j));
            } else {
                assert(out@[i] == before[i]);
            }
        }
        k = k + 1;
    }
    assert(out@ =~= encode_spec(v));
    Ok(out)
}

fn read_loc(s: &Vec<u8>, p: usize) -> (r: Option<FileIndex>)
    requires
        p + LOCATOR_LEN <= s.len(),
    ensures
        r == loc_at(s@, p as int),
{
    let f = FileIndex {
        offset: FileOffset(read_u32(s, p)),
        version_number: read_u16(s, p + 4),
        version_id: VersionHash(read_u32(s, p + 6)),
    };
    if f.offset.0 == 0xffff_ffff && f.version_number == 0 && f.version_id.0 == 0 {
        None
    } else {
        Some(f)
    }
}

fn read_prop(s: &Vec<u8>, p: usize) -> (r: PropLocation)
    requires
        p + 12 <= s.len(),
    ensures
        r == prop_at(s@, p as int),
{
    PropLocation { offset: read_u64(s, p), len: read_u32(s, p + 8) }
}

fn metric_from(tag: u8, v: i32) -> (r: Option<MetricResult>)
    ensures
        r == metric_of(tag, v),
{
    if tag == 0 {
        Some(MetricResult::CosineSimilarity(v))
    } else if tag == 1 {
        Some(MetricResult::CosineDistance(v))
    } else if tag == 2 {
        Some(MetricResult::EuclideanDistance(v))
    } else if tag == 3 {
        Some(MetricResult::HammingDistance(v))
    } else if tag == 4 {
        Some(MetricResult::DotProductDistance(v))
    } else {
        None
    }
}

fn read_neighbor(s: &Vec<u8>, p: usize) -> (r: Option<Option<NeighborRecord>>)
    requires
        p + NEIGHBOR_LEN <= s.len(),
    ensures
        r == neighbor_at(s@, p as int),
{
    match read_loc(s, p + 4) {
        None => Some(None),
        Some(loc) => {
            let payload = read_u32(s, p + 15) as i32;
            match metric_from(s[p + 14], payload) {
                Some(dist) => Some(Some(NeighborRecord { id: read_u32(s, p), loc, dist })),
                None => None,
            }
        },
    }
}

/// Reads the record at the start of `s`; `Err(Serialization)` exactly when
/// the bytes hold none (see `decode_spec`).
pub fn deserialize_record(s: &Vec<u8>) -> (r: Result<NodeRecord, CoreError>)
    ensures
        match r {
            Ok(rec) => decode_spec(s@) == Some(rec@),
            Err(e) => e == CoreError::Serialization && decode_spec(s@) is None,
        },
{
    let n = s.len();
    if n < HEADER_LEN {
        return Err(CoreError::Serialization);
    }
    let m = read_u16(s, 57) as usize;
    let vc = HEADER_LEN + NEIGHBOR_LEN * m;
    if n < vc + 1 + LOCATOR_LEN * VERSION_CAPACITY || s[0] > 1 || s[14] > 1 || s[vc] as usize
        > VERSION_CAPACITY {
        assert(m as int == u16_of(s@[57], s@[58]) as int);
        return Err(CoreError::Serialization);
    }
    let vlen = s[vc] as usize;
    let mut neighbors: Vec<Option<NeighborRecord>> = Vec::new();
    let mut k: usize = 0;
    while k < m
        invariant
            k <= m,
            m == u16_of(s@[57], s@[58]) as int,
            vc == vcount_pos(m as int),
            n == s@.len(),
            record_len(m as int) <= n,
            neighbors@.len() == k,
            forall|j: int| 0 <= j < k ==> Some(#[trigger] neighbors@[j]) == neighbor_at(s@, HEADER_LEN + NEIGHBOR_LEN * j),
        decreases m - k,
    {
        match read_neighbor(s, HEADER_LEN + NEIGHBOR_LEN * k) {
            Some(x) => neighbors.push(x),
            None => {
                assert(neighbor_at(s@, HEADER_LEN + NEIGHBOR_LEN * k) is None);
                return Err(CoreError::Serialization);
            },
        }
        k = k + 1;
    }
    let mut versions: Vec<FileIndex> = Vec::new();
    let mut k: usize = 0;
    while k < vlen
        invariant
            k <= vlen,
            vlen == s@[vc as int],
            vlen <= VERSION_CAPACITY,
            m == u16_of(s@[57], s@[58]) as int,
            vc == vcount_pos(m as int),
            n == s@.len(),
            record_len(m as int) <= n,
            versions@.len() == k,
            forall|j: int| 0 <= j < k ==> Some(#[trigger] versions@[j]) == loc_at(s@, vc + 1 + LOCATOR_LEN * j),
        decreases vlen - k,
    {
        match read_loc(s, vc + 1 + LOCATOR_LEN * k) {
            Some(x) => versions.push(x),
            None => {
                assert(loc_at(s@, vc + 1 + LOCATOR_LEN * k) is None);
                return Err(CoreError::Serialization);
            },
        }
        k = k + 1;
    }
    proof {
        assert forall|k: int| 0 <= k < m implies !(#[trigger] neighbor_at(s@, HEADER_LEN + NEIGHBOR_LEN * k) is None) by {
            assert(Some(neighbors@[k]) == neighbor_at(s@, HEADER_LEN + NEIGHBOR_LEN * k));
        }
        assert forall|k: int| 0 <= k < vlen implies !(#[trigger] loc_at(s@, vc + 1 + LOCATOR_LEN * k) is None) by {
            assert(Some(versions@[k]) == loc_at(s@, vc + 1 + LOCATOR_LEN * k));
        }
    }
    let rec = NodeRecord {
        is_level_0: s[0] == 1,
        hnsw_level: s[1],
        prop_value: read_prop(s, 2),
        prop_metadata: if s[14] == 1 {
            Some(read_prop(s, 15))
        } else {
            None
        },
        parent: read_loc(s, 27),
        child: read_loc(s, 37),
        root_version: read_loc(s, 47),
        neighbors,
        versions,
    };
    proof {
        let d = decode_spec(s@)->Some_0;
        assert(rec.neighbors@ =~= d.neighbors);
        assert(rec.versions@ =~= d.versions);
    }
    Ok(rec)
}

} // verus!
