//! What the other modules use of the standard library beyond what `vstd`
//! says of it.

use vstd::prelude::*;

verus! {

/// `String::push` of the standard library, taken on trust: the string
/// afterwards is the string before with `c` appended as its last character.
pub assume_specification[ String::push ](s: &mut String, c: char)
    ensures
        final(s)@ == old(s)@.push(c),
;

/// Pushing onto a vector pushes the pushed value's view onto the vector's
/// deep view.
pub proof fn lemma_push_deep_view<T: DeepView>(before: Vec<T>, after: Vec<T>, last: T)
    requires
        after@ == before@.push(last),
    ensures
        after.deep_view() == before.deep_view().push(last.deep_view()),
{
    assert(after.deep_view() =~= before.deep_view().push(last.deep_view()));
}

} // verus!
