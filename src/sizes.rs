//! The four size classes of files.
use vstd::prelude::*;

verus! {

/// Bytes in a mebibyte.
pub const MIB: u64 = 1048576;

/// Bytes in a gibibyte.
pub const GIB: u64 = 1073741824;

/// The size classes, from the smallest files up.
#[derive(Debug, Clone, Copy, PartialEq, Eq, Structural)]
pub enum SizeBucket {
    Small,
    Medium,
    Large,
    Huge,
}

/// The class of a file of `len` bytes.
pub open spec fn bucket_of(len: int) -> SizeBucket {
    if len < MIB {
        SizeBucket::Small
    } else if len < 100 * MIB {
        SizeBucket::Medium
    } else if len < GIB {
        SizeBucket::Large
    } else {
        SizeBucket::Huge
    }
}

/// The folder name of a class.
pub open spec fn bucket_label(b: SizeBucket) -> Seq<char> {
    match b {
        SizeBucket::Small => "Small (0-1MB)"@,
        SizeBucket::Medium => "Medium (1MB-100MB)"@,
        SizeBucket::Large => "Large (100MB-1GB)"@,
        SizeBucket::Huge => "Huge (1GB+)"@,
    }
}

/// Every length falls in exactly one class: below 1 MiB small, below
/// 100 MiB medium, below 1 GiB large, from 1 GiB on huge.
pub proof fn law_size_buckets(len: int)
    requires
        len >= 0,
    ensures
        bucket_of(len) == SizeBucket::Small <==> len < 1048576,
        bucket_of(len) == SizeBucket::Medium <==> 1048576 <= len < 104857600,
        bucket_of(len) == SizeBucket::Large <==> 104857600 <= len < 1073741824,
        bucket_of(len) == SizeBucket::Huge <==> 1073741824 <= len,
{
}

/// The class of a file of `len` bytes.
pub fn size_bucket(len: u64) -> (r: SizeBucket)
    ensures
        r == bucket_of(len as int),
{
    if len < MIB {
        SizeBucket::Small
    } else if len < 100 * MIB {
        SizeBucket::Medium
    } else if len < GIB {
        SizeBucket::Large
    } else {
        SizeBucket::Huge
    }
}

impl SizeBucket {
    /// The folder name of this class.
    pub fn folder_name(&self) -> (r: String)
        ensures
            r@ == bucket_label(*self),
    {
        match self {
            SizeBucket::Small => String::from_str("Small (0-1MB)"),
            SizeBucket::Medium => String::from_str("Medium (1MB-100MB)"),
            SizeBucket::Large => String::from_str("Large (100MB-1GB)"),
            SizeBucket::Huge => String::from_str("Huge (1GB+)"),
        }
    }
}

/// The folder names of all four classes, smallest first; organising by size
/// creates each of them, used or not.
pub fn size_bucket_folders() -> (r: Vec<String>)
    ensures
        r@.len() == 4,
        r@[0]@ == bucket_label(SizeBucket::Small),
        r@[1]@ == bucket_label(SizeBucket::Medium),
        r@[2]@ == bucket_label(SizeBucket::Large),
        r@[3]@ == bucket_label(SizeBucket::Huge),
{
    let mut v: Vec<String> = Vec::new();
    v.push(SizeBucket::Small.folder_name());
    v.push(SizeBucket::Medium.folder_name());
    v.push(SizeBucket::Large.folder_name());
    v.push(SizeBucket::Huge.folder_name());
    v
}

} // verus!
