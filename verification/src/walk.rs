//! The decision functions of the traversal orchestrator.
//!
//! The walk itself (directory enumeration, the worker pool, the output
//! lock) belongs to the caller; the library pins down each decision it
//! takes: which strategy a worker count selects, which entries are
//! version-control metadata, and which entries are scanned.

use vstd::prelude::*;
use vstd::string::StringSliceAdditionalSpecFns;
use crate::ignore::{Ignore, should_ignore_spec};
use crate::matcher::contains_seq;

verus! {

/// The bytes of the version-control marker `.git/`.
pub open spec fn vcs_marker_slash() -> Seq<u8> {
    seq![46u8, 103u8, 105u8, 116u8, 47u8]
}

/// The bytes of the version-control marker `.git\`.
pub open spec fn vcs_marker_backslash() -> Seq<u8> {
    seq![46u8, 103u8, 105u8, 116u8, 92u8]
}

/// A path inside version-control metadata: it contains `.git/` (or its
/// backslash form) anywhere.
pub open spec fn is_vcs_path_spec(p: Seq<u8>) -> bool {
    contains_seq(p, vcs_marker_slash()) || contains_seq(p, vcs_marker_backslash())
}

/// Whether the traversal skips this path as version-control metadata.
pub fn is_vcs_path(path: &str) -> (r: bool)
    ensures
        r == is_vcs_path_spec(path.spec_bytes()),
{
    let pb = path.as_bytes();
    let mut m1: Vec<u8> = Vec::new();
    m1.push(46);
    m1.push(103);
    m1.push(105);
    m1.push(116);
    m1.push(47);
    assert(m1@ =~= vcs_marker_slash());
    let mut m2: Vec<u8> = Vec::new();
    m2.push(46);
    m2.push(103);
    m2.push(105);
    m2.push(116);
    m2.push(92);
    assert(m2@ =~= vcs_marker_backslash());
    crate::ignore::contains_bytes(pb, m1.as_slice()) || crate::ignore::contains_bytes(
        pb,
        m2.as_slice(),
    )
}

/// Whether a caller-supplied worker count selects the parallel strategy:
/// 0 means an automatically sized pool, 1 forces the sequential path, and
/// anything greater fixes the pool size.
pub fn use_parallel(jobs: usize) -> (r: bool)
    ensures
        r == (jobs != 1),
{
    jobs != 1
}

/// Whether a directory entry is a candidate for scanning: a plain file
/// that is not version-control metadata and that the exclusion rules keep.
pub fn select_candidate(ignore: &Ignore, path: &str, is_file: bool) -> (r: bool)
    ensures
        r == (is_file && !is_vcs_path_spec(path.spec_bytes()) && !should_ignore_spec(
            ignore.root@,
            ignore.cache@,
            path.spec_bytes(),
        )),
{
    is_file && !is_vcs_path(path) && !ignore.should_ignore(path)
}

} // verus!
