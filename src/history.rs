//! The history of one channel, newest sample first, and what a run of
//! writes does to it.
use vstd::prelude::*;

verus! {

/// The history of a channel after `s` is written to it: `s` is the newest
/// sample and the oldest one drops out.
pub open spec fn push_sample<T>(h: Seq<T>, s: T) -> Seq<T> {
    seq![s] + h.drop_last()
}

/// The history of a channel after the samples of `vs` are written to it, in
/// order.
pub open spec fn push_all<T>(h: Seq<T>, vs: Seq<T>) -> Seq<T>
    decreases vs.len(),
{
    if vs.len() == 0 {
        h
    } else {
        push_sample(push_all(h, vs.drop_last()), vs.last())
    }
}

/// After a run of writes a channel holds, newest first, the samples of the
/// run and then what it held before, as far as its capacity reaches.
pub proof fn lemma_push_all<T>(h: Seq<T>, vs: Seq<T>)
    requires
        h.len() > 0,
    ensures
        push_all(h, vs).len() == h.len(),
        forall|i: int|
            0 <= i < h.len() ==> #[trigger] push_all(h, vs)[i] == if i < vs.len() {
                vs[vs.len() - 1 - i]
            } else {
                h[i - vs.len()]
            },
    decreases vs.len(),
{
    if vs.len() > 0 {
        let prev = vs.drop_last();
        lemma_push_all(h, prev);
        assert forall|i: int| 0 <= i < h.len() implies #[trigger] push_all(h, vs)[i] == if i
            < vs.len() {
            vs[vs.len() - 1 - i]
        } else {
            h[i - vs.len()]
        } by {
            if i > 0 {
                assert(push_all(h, vs)[i] == push_all(h, prev)[i - 1]);
            }
        }
    }
}

/// With no more writes than the capacity, the sample written `i` writes ago
/// reads back at delay `i`, for every sample of the run.
pub proof fn lemma_recent_writes_read_back<T>(h: Seq<T>, vs: Seq<T>, i: int)
    requires
        h.len() > 0,
        vs.len() <= h.len(),
        0 <= i < vs.len(),
    ensures
        push_all(h, vs)[i] == vs[vs.len() - 1 - i],
{
    lemma_push_all(h, vs);
}

/// Once a channel of capacity `n` has seen `n` writes or more, it holds only
/// the last `n` of them: the largest delay reads the oldest of those, and
/// nothing older remains.
pub proof fn lemma_oldest_retained<T>(h: Seq<T>, vs: Seq<T>)
    requires
        h.len() > 0,
        vs.len() >= h.len(),
    ensures
        push_all(h, vs)[h.len() - 1] == vs[vs.len() - h.len()],
        push_all(h, vs) =~= vs.subrange(vs.len() - h.len(), vs.len() as int).reverse(),
{
    lemma_push_all(h, vs);
}

} // verus!
