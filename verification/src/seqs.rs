//! Concatenation of a sequence of chunks, and how indexing distributes over
//! it when every chunk has the same length.
use vstd::prelude::*;

verus! {

/// All chunks of `parts` laid end to end, in order.
pub open spec fn concat_all<A>(parts: Seq<Seq<A>>) -> Seq<A>
    decreases parts.len(),
{
    if parts.len() == 0 {
        Seq::empty()
    } else {
        concat_all(parts.drop_last()) + parts.last()
    }
}

pub proof fn lemma_concat_all_push<A>(parts: Seq<Seq<A>>, tail: Seq<A>)
    ensures
        concat_all(parts.push(tail)) == concat_all(parts) + tail,
{
    assert(parts.push(tail).drop_last() =~= parts);
}

pub proof fn lemma_concat_all_len<A>(parts: Seq<Seq<A>>, width: nat)
    requires
        forall|i: int| 0 <= i < parts.len() ==> (#[trigger] parts[i]).len() == width,
    ensures
        concat_all(parts).len() == parts.len() * width,
    decreases parts.len(),
{
    if parts.len() == 0 {
    } else {
        lemma_concat_all_len(parts.drop_last(), width);
        assert((parts.len() - 1) * width + width == parts.len() * width) by (nonlinear_arith);
    }
}

pub proof fn lemma_concat_all_index<A>(parts: Seq<Seq<A>>, width: nat, i: int, j: int)
    requires
        forall|k: int| 0 <= k < parts.len() ==> (#[trigger] parts[k]).len() == width,
        0 <= i < parts.len(),
        0 <= j < width,
    ensures
        concat_all(parts).len() == parts.len() * width,
        concat_all(parts)[i * width + j] == parts[i][j],
    decreases parts.len(),
{
    lemma_concat_all_len(parts, width);
    let pre = parts.drop_last();
    lemma_concat_all_len(pre, width);
    assert(0 <= i * width + j < parts.len() * width) by (nonlinear_arith)
        requires
            0 <= i < parts.len(),
            0 <= j < width,
    ;
    if i == parts.len() - 1 {
        assert(i * width + j - pre.len() * width == j) by (nonlinear_arith)
            requires
                pre.len() == i,
        ;
    } else {
        lemma_concat_all_index(pre, width, i, j);
        assert(i * width + j < pre.len() * width) by (nonlinear_arith)
            requires
                0 <= i < pre.len(),
                0 <= j < width,
        ;
    }
}

} // verus!
