//! Counting faces of a sequence of rolls that fall in a half-open range.

use vstd::prelude::*;

verus! {

/// 1 where `lo <= face < hi`, else 0.
pub open spec fn hit(face: usize, lo: int, hi: int) -> nat {
    if lo <= face < hi {
        1
    } else {
        0
    }
}

/// How many of `faces` lie in `lo <= face < hi`.
pub open spec fn count_in(faces: Seq<usize>, lo: int, hi: int) -> nat
    decreases faces.len(),
{
    if faces.len() == 0 {
        0
    } else {
        count_in(faces.drop_last(), lo, hi) + hit(faces.last(), lo, hi)
    }
}

/// One past the largest face a die can show on this machine.
pub open spec fn top() -> int {
    usize::MAX + 1
}

pub proof fn lemma_count_in_push(faces: Seq<usize>, face: usize, lo: int, hi: int)
    ensures
        count_in(faces.push(face), lo, hi) == count_in(faces, lo, hi) + hit(face, lo, hi),
{
    assert(faces.push(face).drop_last() =~= faces);
}

pub proof fn lemma_count_in_concat(a: Seq<usize>, b: Seq<usize>, lo: int, hi: int)
    ensures
        count_in(a + b, lo, hi) == count_in(a, lo, hi) + count_in(b, lo, hi),
    decreases b.len(),
{
    if b.len() == 0 {
        assert(a + b =~= a);
    } else {
        lemma_count_in_concat(a, b.drop_last(), lo, hi);
        assert((a + b).drop_last() =~= a + b.drop_last());
    }
}

pub proof fn lemma_count_in_bound(faces: Seq<usize>, lo: int, hi: int)
    ensures
        count_in(faces, lo, hi) <= faces.len(),
    decreases faces.len(),
{
    if faces.len() > 0 {
        lemma_count_in_bound(faces.drop_last(), lo, hi);
    }
}

pub proof fn lemma_count_in_split(faces: Seq<usize>, lo: int, mid: int, hi: int)
    requires
        lo <= mid <= hi,
    ensures
        count_in(faces, lo, hi) == count_in(faces, lo, mid) + count_in(faces, mid, hi),
    decreases faces.len(),
{
    if faces.len() > 0 {
        lemma_count_in_split(faces.drop_last(), lo, mid, hi);
    }
}

pub proof fn lemma_count_in_mono(faces: Seq<usize>, lo: int, hi: int, lo2: int, hi2: int)
    requires
        lo2 <= lo,
        hi <= hi2,
    ensures
        count_in(faces, lo, hi) <= count_in(faces, lo2, hi2),
    decreases faces.len(),
{
    if faces.len() > 0 {
        lemma_count_in_mono(faces.drop_last(), lo, hi, lo2, hi2);
    }
}

/// Every face lies between 0 and the machine's largest number.
pub proof fn lemma_count_in_all(faces: Seq<usize>)
    ensures
        count_in(faces, 0, top()) == faces.len(),
    decreases faces.len(),
{
    if faces.len() > 0 {
        lemma_count_in_all(faces.drop_last());
    }
}

} // verus!
