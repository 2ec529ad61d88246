//! Signal storms: many waiting signals with the same payload.
use crate::port::queue_view;
use crate::signal::same_payload;
use crate::signal::Signal;
use crate::signal::SignalView;
use std::collections::VecDeque;
use vstd::prelude::*;

verus! {

/// How many of the signals of `queue` carry `payload`.
pub open spec fn occurrences(queue: Seq<SignalView>, payload: Seq<u8>) -> nat
    decreases queue.len(),
{
    if queue.len() == 0 {
        0
    } else {
        occurrences(queue.drop_last(), payload) + if queue.last().payload == payload {
            1nat
        } else {
            0
        }
    }
}

/// The largest number of occurrences in `queue` that one of the payloads of the first `k` signals
/// has.
pub open spec fn peak_of_first(queue: Seq<SignalView>, k: nat) -> nat
    decreases k,
{
    if k == 0 {
        0
    } else {
        let n = occurrences(queue, queue[k - 1].payload);
        let before = peak_of_first(queue, (k - 1) as nat);
        if n > before {
            n
        } else {
            before
        }
    }
}

/// How often the most frequent payload of `queue` occurs.
pub open spec fn peak(queue: Seq<SignalView>) -> nat {
    peak_of_first(queue, queue.len())
}

/// The payload of an earlier signal is accounted for.
proof fn lemma_peak_covers(queue: Seq<SignalView>, k: nat, i: int)
    requires
        0 <= i < k,
    ensures
        occurrences(queue, queue[i].payload) <= peak_of_first(queue, k),
    decreases k,
{
    if i < k - 1 {
        lemma_peak_covers(queue, (k - 1) as nat, i);
    }
}

/// The most frequent payload is that of some signal, and no payload occurs more often.
pub proof fn law_peak(queue: Seq<SignalView>, payload: Seq<u8>)
    ensures
        occurrences(queue, payload) <= peak(queue),
        queue.len() > 0 ==> peak(queue) > 0 && exists|i: int|
            0 <= i < queue.len() && peak(queue) == occurrences(
                queue,
                #[trigger] queue[i].payload,
            ),
{
    if occurrences(queue, payload) > 0 {
        let i = lemma_occurrence(queue, payload);
        lemma_peak_covers(queue, queue.len(), i);
    }
    if queue.len() > 0 {
        lemma_peak_attained(queue, queue.len());
    }
}

/// A payload that occurs is that of some signal.
proof fn lemma_occurrence(queue: Seq<SignalView>, payload: Seq<u8>) -> (i: int)
    requires
        occurrences(queue, payload) > 0,
    ensures
        0 <= i < queue.len(),
        queue[i].payload == payload,
    decreases queue.len(),
{
    if queue.last().payload == payload {
        queue.len() - 1
    } else {
        lemma_occurrence(queue.drop_last(), payload)
    }
}

/// A signal counts among the occurrences of its payload.
proof fn lemma_occurs(queue: Seq<SignalView>, i: int)
    requires
        0 <= i < queue.len(),
    ensures
        occurrences(queue, queue[i].payload) > 0,
    decreases queue.len(),
{
    if i < queue.len() - 1 {
        lemma_occurs(queue.drop_last(), i);
    }
}

proof fn lemma_peak_attained(queue: Seq<SignalView>, k: nat)
    requires
        0 < k <= queue.len(),
    ensures
        peak_of_first(queue, k) > 0,
        exists|i: int|
            0 <= i < k && peak_of_first(queue, k) == occurrences(
                queue,
                #[trigger] queue[i].payload,
            ),
    decreases k,
{
    lemma_occurs(queue, k - 1);
    if k > 1 {
        lemma_peak_attained(queue, (k - 1) as nat);
    }
    if peak_of_first(queue, k) == occurrences(queue, queue[k - 1].payload) {
        assert(0 <= k - 1 < k);
    }
}

/// Counts the signals of `queue` that carry the payload of the one at `i`.
fn count_payload(queue: &VecDeque<Signal>, i: usize) -> (r: usize)
    requires
        i < queue@.len(),
    ensures
        r == occurrences(queue_view(queue@), queue@[i as int].payload@),
{
    let ghost views = queue_view(queue@);
    let ghost payload = queue@[i as int].payload@;
    let mut n: usize = 0;
    let mut j: usize = 0;
    assert(views.take(0) =~= Seq::<SignalView>::empty());
    while j < queue.len()
        invariant
            i < queue@.len(),
            views == queue_view(queue@),
            payload == queue@[i as int].payload@,
            n <= j <= queue@.len(),
            n == occurrences(views.take(j as int), payload),
        decreases queue@.len() - j,
    {
        assert(views.take(j + 1).drop_last() =~= views.take(j as int));
        if same_payload(&queue[j].payload, &queue[i].payload) {
            n = n + 1;
        }
        j = j + 1;
    }
    assert(views.take(j as int) =~= views);
    n
}

/// Counts how often the most frequent payload of `queue` occurs.
pub fn peak_of(queue: &VecDeque<Signal>) -> (r: usize)
    ensures
        r == peak(queue_view(queue@)),
{
    let ghost views = queue_view(queue@);
    let mut best: usize = 0;
    let mut i: usize = 0;
    while i < queue.len()
        invariant
            views == queue_view(queue@),
            i <= queue@.len(),
            best == peak_of_first(views, i as nat),
        decreases queue@.len() - i,
    {
        // A payload that came up before has been counted.
        let mut j: usize = 0;
        while j < i && !same_payload(&queue[j].payload, &queue[i].payload)
            invariant
                j <= i < queue@.len(),
            decreases i - j,
        {
            j = j + 1;
        }
        if j < i {
            proof {
                assert(views[j as int].payload == queue@[j as int].payload@);
                assert(views[i as int].payload == queue@[i as int].payload@);
                lemma_peak_covers(views, i as nat, j as int);
            }
        } else {
            let n: usize = count_payload(queue, i);
            if n > best {
                best = n;
            }
        }
        i = i + 1;
    }
    best
}

} // verus!
