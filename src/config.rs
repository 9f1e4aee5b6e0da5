use vstd::prelude::*;
use crate::path::{normalize, normalized};

verus! {

/// What a mirroring run is told: where the mirrored subtree lives, where its
/// mirror goes (both relative to the volume root of each path), which
/// directories are pruned, and which file names suppress their directory.
pub struct Config {
    pub src: String,
    pub dst: String,
    pub disallowed_dirs: Vec<String>,
    pub exclusion_markers: Vec<String>,
}

/// Each entry of `v` normalized.
fn normalize_all(v: &Vec<String>) -> (r: Vec<String>)
    ensures
        r@.len() == v@.len(),
        forall|i: int| 0 <= i < v@.len() ==> (#[trigger] r@[i])@ == normalized(v@[i]@),
{
    let mut r: Vec<String> = Vec::new();
    let mut i: usize = 0;
    while i < v.len()
        invariant
            i <= v@.len(),
            r@.len() == i,
            forall|j: int| 0 <= j < i ==> (#[trigger] r@[j])@ == normalized(v@[j]@),
        decreases v@.len() - i,
    {
        r.push(normalize(v[i].as_str()));
        i = i + 1;
    }
    r
}

impl Config {
    /// A configuration whose entries are written as plain components:
    /// either slash separates them, and empty components are dropped, so
    /// `"a/b/"` and `"a\\b"` name the same path.
    pub fn new(
        src: String,
        dst: String,
        disallowed_dirs: Vec<String>,
        exclusion_markers: Vec<String>,
    ) -> (r: Config)
        ensures
            r.src@ == normalized(src@),
            r.dst@ == normalized(dst@),
            r.disallowed_dirs@.len() == disallowed_dirs@.len(),
            forall|i: int|
                0 <= i < disallowed_dirs@.len() ==> (#[trigger] r.disallowed_dirs@[i])@
                    == normalized(disallowed_dirs@[i]@),
            r.exclusion_markers@.len() == exclusion_markers@.len(),
            forall|i: int|
                0 <= i < exclusion_markers@.len() ==> (#[trigger] r.exclusion_markers@[i])@
                    == normalized(exclusion_markers@[i]@),
    {
        Config {
            src: normalize(src.as_str()),
            dst: normalize(dst.as_str()),
            disallowed_dirs: normalize_all(&disallowed_dirs),
            exclusion_markers: normalize_all(&exclusion_markers),
        }
    }
}

} // verus!
