//! Small bridging facts about elementwise views of vectors.

use vstd::prelude::*;

verus! {

/// The elementwise view of a vector has the vector's length.
pub broadcast proof fn lemma_vec_deep_view_len<T: DeepView>(v: Vec<T>)
    ensures
        #![trigger v.deep_view()]
        v.deep_view().len() == v@.len(),
{
}

/// The elementwise view of a vector views each element.
pub broadcast proof fn lemma_vec_deep_view_index<T: DeepView>(v: Vec<T>, i: int)
    requires
        0 <= i < v@.len(),
    ensures
        #[trigger] v.deep_view()[i] == v@[i].deep_view(),
{
}

} // verus!
