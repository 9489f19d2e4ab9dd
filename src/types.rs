use vstd::prelude::*;

verus! {

/// Byte offset of a record inside a version file.
#[derive(Clone, Copy, Debug, PartialEq, Eq, Structural, Hash)]
pub struct FileOffset(pub u32);

/// Opaque identifier of a committed version of a branch.
#[derive(Clone, Copy, Debug, PartialEq, Eq, Structural, Hash)]
pub struct VersionHash(pub u32);

/// Address of one serialized record: offset, version number and version id.
#[derive(Clone, Copy, Debug, PartialEq, Eq, Structural, Hash)]
pub struct FileIndex {
    pub offset: FileOffset,
    pub version_number: u16,
    pub version_id: VersionHash,
}

/// A similarity or distance value, stored as an order-preserving integer key.
///
/// For similarity variants a larger key is better; for distance variants a
/// smaller key is better.
#[derive(Clone, Copy, Debug, PartialEq, Eq, Structural, Hash)]
pub enum MetricResult {
    CosineSimilarity(i32),
    CosineDistance(i32),
    EuclideanDistance(i32),
    HammingDistance(i32),
    DotProductDistance(i32),
}

/// How good a metric result is: larger is better, whatever the metric.
pub open spec fn quality(m: MetricResult) -> int {
    match m {
        MetricResult::CosineSimilarity(v) => v as int,
        MetricResult::CosineDistance(v) => -(v as int),
        MetricResult::EuclideanDistance(v) => -(v as int),
        MetricResult::HammingDistance(v) => -(v as int),
        MetricResult::DotProductDistance(v) => -(v as int),
    }
}

impl MetricResult {
    /// The metric's value on the common "larger is better" scale.
    pub fn quality(&self) -> (r: i64)
        ensures
            r as int == quality(*self),
    {
        match *self {
            MetricResult::CosineSimilarity(v) => v as i64,
            MetricResult::CosineDistance(v) => -(v as i64),
            MetricResult::EuclideanDistance(v) => -(v as i64),
            MetricResult::HammingDistance(v) => -(v as i64),
            MetricResult::DotProductDistance(v) => -(v as i64),
        }
    }

    /// Whether `self` is strictly better than `other`.
    pub fn is_better_than(&self, other: &MetricResult) -> (r: bool)
        ensures
            r == (quality(*self) > quality(*other)),
    {
        self.quality() > other.quality()
    }
}

/// Errors that the core surfaces.
#[derive(Clone, Copy, Debug, PartialEq, Eq, Structural)]
pub enum CoreError {
    /// A pending item whose record has not been loaded into the cache.
    NotLoaded(FileIndex),
    /// A record that does not decode: bad tag, short input, bad sentinel.
    Serialization,
    /// A structural rule of the version chain would be broken.
    InvariantViolation,
}

} // verus!
