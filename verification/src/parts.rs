//! Facts about joining parts of equal width end to end.

use vstd::prelude::*;

verus! {

/// Every part has exactly `width` elements.
pub open spec fn uniform<A>(parts: Seq<Seq<A>>, width: nat) -> bool {
    forall|i: int| 0 <= i < parts.len() ==> (#[trigger] parts[i]).len() == width
}

/// Where element `offset` of part `index` stands once parts of `width`
/// elements are joined: strictly before the end of part `index`.
pub proof fn lemma_position_in_bounds(index: int, offset: int, width: int, count: int)
    by (nonlinear_arith)
    requires
        0 <= index < count,
        0 <= offset < width,
    ensures
        0 <= index * width + offset < count * width,
{
}

/// Joining parts of equal width gives as many elements as there are parts
/// times the width, and element `offset` of part `index` is found at
/// `index * width + offset`.
pub proof fn lemma_flatten_uniform<A>(parts: Seq<Seq<A>>, width: nat)
    requires
        uniform(parts, width),
    ensures
        parts.flatten().len() == parts.len() * width,
        forall|index: int, offset: int|
            0 <= index < parts.len() && 0 <= offset < width ==> parts.flatten()[index * width
                + offset] == #[trigger] parts[index][offset],
    decreases parts.len(),
{
    let count = parts.len() as int;
    if count == 0 {
        assert(parts.flatten().len() == 0);
        assert(parts.len() * width == 0) by (nonlinear_arith)
            requires
                parts.len() == 0,
        ;
    } else {
        let front = parts.drop_last();
        let last = parts.last();
        assert(parts =~= front.push(last));
        front.lemma_flatten_push(last);
        assert(parts.flatten() == front.flatten() + last);
        lemma_flatten_uniform(front, width);
        assert(front.flatten().len() == (count - 1) * width);
        assert((count - 1) * width + width == count * width) by (nonlinear_arith);
        assert forall|index: int, offset: int|
            0 <= index < parts.len() && 0 <= offset < width implies parts.flatten()[index * width
            + offset] == #[trigger] parts[index][offset] by {
            if index < count - 1 {
                lemma_position_in_bounds(index, offset, width as int, count - 1);
                assert(front[index] == parts[index]);
                assert(front.flatten()[index * width + offset] == front[index][offset]);
            }
        }
    }
}

} // verus!
