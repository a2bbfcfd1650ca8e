//! Single ownership of flowfiles: across all connections of a flow, each
//! flowfile identifier is queued at most once, and every queued identifier
//! was handed out before the next fresh one.

use vstd::prelude::*;
use crate::flowfile::FlowFileView;

verus! {

/// The identifiers of a queue, head first.
pub open spec fn ids_of(q: Seq<FlowFileView>) -> Seq<u64> {
    q.map_values(|f: FlowFileView| f.id)
}

/// The identifiers of all queues, queue after queue.
pub open spec fn flat_ids(qs: Seq<Seq<FlowFileView>>) -> Seq<u64>
    decreases qs.len(),
{
    if qs.len() == 0 {
        Seq::empty()
    } else {
        flat_ids(qs.drop_last()) + ids_of(qs.last())
    }
}

/// No identifier is queued twice, and all are below `next`.
pub open spec fn owned_once(qs: Seq<Seq<FlowFileView>>, next: u64) -> bool {
    &&& flat_ids(qs).no_duplicates()
    &&& forall|i: int| 0 <= i < flat_ids(qs).len() ==> #[trigger] flat_ids(qs)[i] < next
}

pub proof fn lemma_flat_ids_concat(a: Seq<Seq<FlowFileView>>, b: Seq<Seq<FlowFileView>>)
    ensures
        flat_ids(a + b) == flat_ids(a) + flat_ids(b),
    decreases b.len(),
{
    if b.len() == 0 {
        assert(a + b =~= a);
        assert(flat_ids(a) + flat_ids(b) =~= flat_ids(a));
    } else {
        lemma_flat_ids_concat(a, b.drop_last());
        assert((a + b).drop_last() =~= a + b.drop_last());
        assert(flat_ids(a) + (flat_ids(b.drop_last()) + ids_of(b.last())) =~= (flat_ids(a) + flat_ids(
            b.drop_last(),
        )) + ids_of(b.last()));
    }
}

/// The identifiers of all queues, split around queue `c`.
pub proof fn lemma_flat_ids_split(qs: Seq<Seq<FlowFileView>>, c: int)
    requires
        0 <= c < qs.len(),
    ensures
        flat_ids(qs) == flat_ids(qs.take(c)) + ids_of(qs[c]) + flat_ids(qs.skip(c + 1)),
{
    assert(qs =~= qs.take(c) + (seq![qs[c]] + qs.skip(c + 1)));
    lemma_flat_ids_concat(qs.take(c), seq![qs[c]] + qs.skip(c + 1));
    lemma_flat_ids_concat(seq![qs[c]], qs.skip(c + 1));
    assert(seq![qs[c]].drop_last() =~= Seq::<Seq<FlowFileView>>::empty());
    assert(flat_ids(Seq::<Seq<FlowFileView>>::empty()) == Seq::<u64>::empty());
    assert(flat_ids(seq![qs[c]]) == flat_ids(Seq::<Seq<FlowFileView>>::empty()) + ids_of(qs[c]));
    assert(flat_ids(seq![qs[c]]) =~= ids_of(qs[c]));
    assert(flat_ids(qs.take(c)) + (ids_of(qs[c]) + flat_ids(qs.skip(c + 1))) =~= flat_ids(qs.take(c))
        + ids_of(qs[c]) + flat_ids(qs.skip(c + 1)));
}

/// Putting a fresh identifier between two parts keeps them duplicate-free.
pub proof fn lemma_insert_fresh(a: Seq<u64>, b: Seq<u64>, x: u64)
    requires
        (a + b).no_duplicates(),
        forall|i: int| 0 <= i < (a + b).len() ==> #[trigger] (a + b)[i] != x,
    ensures
        (a.push(x) + b).no_duplicates(),
{
    let o = a + b;
    let n = a.push(x) + b;
    assert forall|i: int| 0 <= i < n.len() && i != a.len() implies #[trigger] n[i] == o[if i < a.len() { i } else { i - 1 }] by {
        if i < a.len() {
            assert(n[i] == a[i]);
        } else {
            assert(n[i] == b[i - a.len() - 1]);
        }
    }
    assert forall|i: int, j: int| 0 <= i < n.len() && 0 <= j < n.len() && i != j implies n[i] != n[j] by {
        let oi = if i < a.len() { i } else { i - 1 };
        let oj = if j < a.len() { j } else { j - 1 };
        if i == a.len() {
            assert(n[i] == x);
            assert(n[j] == o[oj]);
        } else if j == a.len() {
            assert(n[j] == x);
            assert(n[i] == o[oi]);
        } else {
            assert(n[i] == o[oi]);
            assert(n[j] == o[oj]);
        }
    }
}

/// Whether `ids` holds no identifier twice and none at or above `next`.
pub fn ids_fresh_and_distinct(ids: &Vec<u64>, next: u64) -> (r: bool)
    ensures
        r == (ids@.no_duplicates() && forall|i: int| 0 <= i < ids@.len() ==> #[trigger] ids@[i] < next),
{
    let mut i: usize = 0;
    while i < ids.len()
        invariant
            i <= ids.len(),
            forall|a: int| 0 <= a < i ==> #[trigger] ids@[a] < next,
            forall|a: int, b: int| 0 <= a < i && a < b < ids@.len() ==> ids@[a] != ids@[b],
        decreases ids.len() - i,
    {
        if ids[i] >= next {
            return false;
        }
        let mut j: usize = i + 1;
        while j < ids.len()
            invariant
                i < j <= ids.len(),
                forall|b: int| i < b < j ==> ids@[i as int] != #[trigger] ids@[b],
            decreases ids.len() - j,
        {
            if ids[i] == ids[j] {
                assert(!ids@.no_duplicates());
                return false;
            }
            j = j + 1;
        }
        i = i + 1;
    }
    assert(ids@.no_duplicates()) by {
        assert forall|a: int, b: int| 0 <= a < ids@.len() && 0 <= b < ids@.len() && a != b implies ids@[a] != ids@[b] by {
            if a > b {
                assert(ids@[b] != ids@[a]);
            }
        }
    }
    true
}

} // verus!
