//! Facts about the deep view of a vector, used wherever a contract speaks
//! of a vector of viewable values.

use vstd::prelude::*;

verus! {

/// The deep view of a vector has one element per element.
pub broadcast proof fn lemma_deep_view_len<T: DeepView>(v: Vec<T>)
    ensures
        #[trigger] v.deep_view().len() == v@.len(),
{
}

/// The deep view of a vector is the element-wise deep view.
pub broadcast proof fn lemma_deep_view_index<T: DeepView>(v: Vec<T>, k: int)
    requires
        0 <= k < v@.len(),
    ensures
        #[trigger] v.deep_view()[k] == v@[k].deep_view(),
{
}

} // verus!
