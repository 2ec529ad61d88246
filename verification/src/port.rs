//! Ports: the queues of a room, with filters and transforms in front of them.
use crate::signal::Signal;
use crate::signal::SignalView;
use std::collections::VecDeque;
use vstd::prelude::*;

verus! {

/// A transform function applied to signals passing through a port.
pub type TransformFn = fn(&Signal) -> Signal;

/// A filter predicate: return false to drop a signal.
pub type FilterFn = fn(&Signal) -> bool;

/// An inbound or outbound port on a room, with filters of type `F` and transforms of type `T`.
#[derive(Debug)]
pub struct Port<F, T> {
    /// Room this port belongs to.
    pub room: String,
    pub inbound: VecDeque<Signal>,
    pub outbound: VecDeque<Signal>,
    pub filters: Vec<F>,
    pub transforms: Vec<T>,
}

/// What the signals of a queue say, in order.
pub open spec fn queue_view(queue: Seq<Signal>) -> Seq<SignalView> {
    queue.map_values(|s: Signal| s@)
}

/// `filter` can say `answer` to `signal`.
pub open spec fn says<F: Fn(&Signal) -> bool>(filter: F, signal: &Signal, answer: bool) -> bool {
    call_ensures(filter, (signal,), answer)
}

/// Every filter lets `signal` pass.
pub open spec fn all_pass<F: Fn(&Signal) -> bool>(filters: Seq<F>, signal: &Signal) -> bool {
    forall|i: int| 0 <= i < filters.len() ==> says(#[trigger] filters[i], signal, true)
}

/// The filters before the one at `i` let `signal` pass, and that one does not.
pub open spec fn first_refusal<F: Fn(&Signal) -> bool>(
    filters: Seq<F>,
    signal: &Signal,
    i: int,
) -> bool {
    &&& 0 <= i < filters.len()
    &&& says(filters[i], signal, false)
    &&& forall|j: int| 0 <= j < i ==> says(#[trigger] filters[j], signal, true)
}

/// `out` is what the transforms, each given the result of the one before, can make of `signal`.
pub open spec fn transforms_to<T: Fn(&Signal) -> Signal>(
    transforms: Seq<T>,
    signal: Signal,
    out: Signal,
) -> bool
    decreases transforms.len(),
{
    if transforms.len() == 0 {
        out == signal
    } else {
        exists|mid: Signal|
            transforms_to(transforms.drop_last(), signal, mid) && #[trigger] call_ensures(
                transforms.last(),
                (&mid,),
                out,
            )
    }
}

impl<F, T> Port<F, T> {
    /// A port with empty queues, without filters and without transforms.
    pub fn new(room: &str) -> (r: Self)
        ensures
            r.room@ == room@,
            r.inbound@ == Seq::<Signal>::empty(),
            r.outbound@ == Seq::<Signal>::empty(),
            r.filters@ == Seq::<F>::empty(),
            r.transforms@ == Seq::<T>::empty(),
    {
        Port {
            room: room.to_owned(),
            inbound: VecDeque::new(),
            outbound: VecDeque::new(),
            filters: Vec::new(),
            transforms: Vec::new(),
        }
    }
}

/// Stands in the place of the filters and the transforms of a port that has none.
#[derive(Debug)]
pub struct Open;

impl Port<Open, Open> {
    /// Takes in a signal as it is: a port without filters accepts every signal, and without
    /// transforms leaves it unchanged.
    pub fn accept(&mut self, signal: Signal)
        ensures
            final(self).inbound@ == old(self).inbound@.push(signal),
            final(self).room == old(self).room,
            final(self).outbound == old(self).outbound,
            final(self).filters == old(self).filters,
            final(self).transforms == old(self).transforms,
    {
        self.inbound.push_back(signal);
    }
}

impl<F: Fn(&Signal) -> bool, T: Fn(&Signal) -> Signal> Port<F, T> {
    /// The filters and the transforms of the port can be asked about any signal.
    pub open spec fn is_total(&self) -> bool {
        &&& forall|i: int, s: &Signal|
            0 <= i < self.filters@.len() ==> #[trigger] call_requires(self.filters@[i], (s,))
        &&& forall|i: int, s: &Signal|
            0 <= i < self.transforms@.len() ==> #[trigger] call_requires(
                self.transforms@[i],
                (s,),
            )
    }

    /// Everything but the inbound queue is as in `other`.
    pub open spec fn same_but_inbound(&self, other: &Self) -> bool {
        &&& self.room == other.room
        &&& self.outbound == other.outbound
        &&& self.filters == other.filters
        &&& self.transforms == other.transforms
    }

    /// Everything but the outbound queue is as in `other`.
    pub open spec fn same_but_outbound(&self, other: &Self) -> bool {
        &&& self.room == other.room
        &&& self.inbound == other.inbound
        &&& self.filters == other.filters
        &&& self.transforms == other.transforms
    }

    /// Push a signal through the port, applying filters and transforms.
    /// Returns true if the signal was accepted.
    pub fn push_inbound(&mut self, signal: Signal) -> (r: bool)
        requires
            old(self).is_total(),
        ensures
            final(self).same_but_inbound(old(self)),
            r ==> all_pass(old(self).filters@, &signal) && exists|out: Signal|
                transforms_to(old(self).transforms@, signal, out) && final(self).inbound@
                    == #[trigger] old(self).inbound@.push(out),
            !r ==> final(self).inbound@ == old(self).inbound@ && exists|i: int|
                first_refusal(old(self).filters@, &signal, i),
    {
        if !self.run_filters(&signal) {
            return false;
        }
        let signal = self.run_transforms(signal);
        self.inbound.push_back(signal);
        true
    }

    /// Push a signal out of the port, applying filters and transforms.
    /// Returns true if the signal was accepted.
    pub fn push_outbound(&mut self, signal: Signal) -> (r: bool)
        requires
            old(self).is_total(),
        ensures
            final(self).same_but_outbound(old(self)),
            r ==> all_pass(old(self).filters@, &signal) && exists|out: Signal|
                transforms_to(old(self).transforms@, signal, out) && final(self).outbound@
                    == #[trigger] old(self).outbound@.push(out),
            !r ==> final(self).outbound@ == old(self).outbound@ && exists|i: int|
                first_refusal(old(self).filters@, &signal, i),
    {
        if !self.run_filters(&signal) {
            return false;
        }
        let signal = self.run_transforms(signal);
        self.outbound.push_back(signal);
        true
    }

    /// Asks the filters, in order, up to the first that refuses.
    fn run_filters(&self, signal: &Signal) -> (r: bool)
        requires
            self.is_total(),
        ensures
            r ==> all_pass(self.filters@, signal),
            !r ==> exists|i: int| first_refusal(self.filters@, signal, i),
    {
        let mut i: usize = 0;
        while i < self.filters.len()
            invariant
                self.is_total(),
                i <= self.filters@.len(),
                forall|j: int| 0 <= j < i ==> says(#[trigger] self.filters@[j], signal, true),
            decreases self.filters@.len() - i,
        {
            let filter = &self.filters[i];
            if !filter(signal) {
                assert(first_refusal(self.filters@, signal, i as int));
                return false;
            }
            i = i + 1;
        }
        true
    }

    /// Applies the transforms, in order.
    fn run_transforms(&self, signal: Signal) -> (r: Signal)
        requires
            self.is_total(),
        ensures
            transforms_to(self.transforms@, signal, r),
    {
        let ghost first = signal;
        let mut signal = signal;
        let mut i: usize = 0;
        assert(self.transforms@.take(0) =~= Seq::<T>::empty());
        while i < self.transforms.len()
            invariant
                self.is_total(),
                i <= self.transforms@.len(),
                transforms_to(self.transforms@.take(i as int), first, signal),
            decreases self.transforms@.len() - i,
        {
            let transform = &self.transforms[i];
            let ghost before = signal;
            signal = transform(&signal);
            proof {
                let done = self.transforms@.take(i + 1);
                assert(done.drop_last() =~= self.transforms@.take(i as int));
                assert(call_ensures(done.last(), (&before,), signal));
            }
            i = i + 1;
        }
        assert(self.transforms@.take(i as int) =~= self.transforms@);
        signal
    }
}

} // verus!
