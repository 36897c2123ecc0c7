//! Relative paths that stay inside the directory they are joined to.
//!
//! Paths are judged on their UTF-8 bytes; `/` (47) is the separator, in
//! which no multi-byte character has a share.
use vstd::prelude::*;

verus! {

pub open spec fn seg_start(b: Seq<u8>, i: int) -> bool {
    i == 0 || b[i - 1] == 47u8
}

pub open spec fn seg_end(b: Seq<u8>, j: int) -> bool {
    j == b.len() || b[j] == 47u8
}

/// A relative path of one or more segments, none of them empty, `.` or
/// `..`, and no NUL byte: joined to a directory it names a place inside it.
pub open spec fn safe_relative_path(b: Seq<u8>) -> bool {
    &&& b.len() > 0
    &&& forall|i: int| 0 <= i < b.len() ==> #[trigger] b[i] != 0u8
    &&& forall|i: int| 0 <= i <= b.len() && #[trigger] seg_start(b, i) ==> !seg_end(b, i)
    &&& forall|i: int|
        0 <= i < b.len() && #[trigger] seg_start(b, i) && b[i] == 46u8 ==> !seg_end(b, i + 1)
    &&& forall|i: int|
        0 <= i && i + 1 < b.len() && #[trigger] seg_start(b, i) && b[i] == 46u8 && b[i + 1] == 46u8
            ==> !seg_end(b, i + 2)
}

/// A single safe path segment: usable as a directory name.
pub open spec fn safe_segment(b: Seq<u8>) -> bool {
    safe_relative_path(b) && forall|i: int| 0 <= i < b.len() ==> #[trigger] b[i] != 47u8
}

/// Whether `b` is a safe relative path.
pub fn is_safe_relative_path(b: &[u8]) -> (r: bool)
    ensures
        r == safe_relative_path(b@),
{
    let n: usize = b.len();
    if n == 0 {
        return false;
    }
    let mut i: usize = 0;
    while i < n
        invariant
            n == b@.len(),
            n > 0,
            i <= n,
            forall|j: int| 0 <= j < i && j < n ==> #[trigger] b@[j] != 0u8,
            forall|j: int| 0 <= j < i && #[trigger] seg_start(b@, j) ==> !seg_end(b@, j),
            forall|j: int|
                0 <= j < i && j < n && #[trigger] seg_start(b@, j) && b@[j] == 46u8 ==> !seg_end(
                    b@,
                    j + 1,
                ),
            forall|j: int|
                0 <= j < i && j + 1 < n && #[trigger] seg_start(b@, j) && b@[j] == 46u8 && b@[j + 1]
                    == 46u8 ==> !seg_end(b@, j + 2),
        decreases n - i,
    {
        let start = i == 0 || b[i - 1] == 47u8;
        if b[i] == 0u8 {
            proof {
                assert(b@[i as int] == 0u8);
            }
            return false;
        }
        if start {
            proof {
                assert(seg_start(b@, i as int));
            }
            if b[i] == 47u8 {
                return false;
            }
            if b[i] == 46u8 {
                if i + 1 == n || b[i + 1] == 47u8 {
                    return false;
                }
                if b[i + 1] == 46u8 && (i + 2 == n || b[i + 2] == 47u8) {
                    return false;
                }
            }
        }
        i = i + 1;
    }
    if b[n - 1] == 47u8 {
        proof {
            assert(seg_start(b@, n as int));
        }
        return false;
    }
    proof {
        assert forall|j: int| 0 <= j <= n && #[trigger] seg_start(b@, j) implies !seg_end(b@, j) by {
            if j == n {
                assert(b@[n - 1] != 47u8);
            }
        }
    }
    true
}

/// Whether `b` is a single safe path segment.
pub fn is_safe_segment(b: &[u8]) -> (r: bool)
    ensures
        r == safe_segment(b@),
{
    let n: usize = b.len();
    let mut i: usize = 0;
    while i < n
        invariant
            n == b@.len(),
            i <= n,
            forall|j: int| 0 <= j < i ==> #[trigger] b@[j] != 47u8,
        decreases n - i,
    {
        if b[i] == 47u8 {
            return false;
        }
        i = i + 1;
    }
    is_safe_relative_path(b)
}

} // verus!
