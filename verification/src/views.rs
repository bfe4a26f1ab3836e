//! Sequence views of nested vectors of bytes.

use vstd::prelude::*;

verus! {

/// The byte sequences held by a sequence of words.
pub open spec fn line_views(v: Seq<Vec<u8>>) -> Seq<Seq<u8>> {
    Seq::new(v.len(), |i: int| v[i]@)
}

/// The word sequences held by a sequence of segments.
pub open spec fn seg_views(v: Seq<Vec<Vec<u8>>>) -> Seq<Seq<Seq<u8>>> {
    Seq::new(v.len(), |i: int| line_views(v[i]@))
}

} // verus!
