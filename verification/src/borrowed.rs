//! Sequences of references, as the traversals hand them out.

use vstd::prelude::*;

verus! {

/// What the references of `refs` point to, in the same order.
pub open spec fn pointees<T>(refs: Seq<&T>) -> Seq<T> {
    Seq::new(refs.len(), |i: int| *refs[i])
}

} // verus!
