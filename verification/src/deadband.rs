//! Deadband filtering: signals that do not change enough are suppressed.
use crate::double::below;
use crate::double::count_ratio;
use crate::double::is_below;
use crate::double::ratio_of_counts;
use crate::double::ONE;
use crate::signal::Signal;
use crate::signal::SignalView;
use vstd::prelude::*;

verus! {

/// Configuration for deadband filtering.
#[derive(Debug, Clone, Copy)]
pub struct DeadbandConfig {
    /// Absolute tolerance, as the bit pattern of a double precision number. Signals that differ
    /// from the last one by less than this are dropped; nothing is, unless it is above zero.
    pub tolerance: u64,
    /// If true, use embedding distance instead of raw payload diff.
    pub use_embedding: bool,
}

impl Default for DeadbandConfig {
    fn default() -> (r: Self)
        ensures
            r.tolerance == 0,
            !r.use_embedding,
    {
        DeadbandConfig { tolerance: 0, use_embedding: false }
    }
}

// Payloads

/// The byte of `s` at `i`; zero beyond the end.
pub open spec fn byte_at(s: Seq<u8>, i: int) -> u8 {
    if 0 <= i < s.len() {
        s[i]
    } else {
        0
    }
}

/// The length of the longer one.
pub open spec fn longer(a: Seq<u8>, b: Seq<u8>) -> nat {
    if a.len() >= b.len() {
        a.len()
    } else {
        b.len()
    }
}

/// At how many of the first `n` positions `a` and `b` differ.
pub open spec fn differing(a: Seq<u8>, b: Seq<u8>, n: nat) -> nat
    decreases n,
{
    if n == 0 {
        0
    } else {
        differing(a, b, (n - 1) as nat) + if byte_at(a, n - 1) != byte_at(b, n - 1) {
            1nat
        } else {
            0
        }
    }
}

/// The fraction of bytes that differ, as a double precision number. The shorter payload counts as
/// filled up with zeros; two empty payloads do not differ.
pub open spec fn payload_difference(a: Seq<u8>, b: Seq<u8>) -> u64 {
    if longer(a, b) == 0 {
        0
    } else {
        count_ratio(differing(a, b, longer(a, b)) as int, longer(a, b) as int)
    }
}

/// Returns the fraction of bytes that differ, between zero and one.
pub fn byte_diff(a: &Vec<u8>, b: &Vec<u8>) -> (r: u64)
    ensures
        r == payload_difference(a@, b@),
        r <= ONE,
        r == 0 <==> differing(a@, b@, longer(a@, b@)) == 0,
{
    let len: usize = if a.len() >= b.len() {
        a.len()
    } else {
        b.len()
    };
    if len == 0 {
        return 0;
    }
    let mut diff: usize = 0;
    let mut i: usize = 0;
    while i < len
        invariant
            len == longer(a@, b@),
            diff <= i <= len,
            diff == differing(a@, b@, i as nat),
        decreases len - i,
    {
        let va: u8 = if i < a.len() {
            a[i]
        } else {
            0
        };
        let vb: u8 = if i < b.len() {
            b[i]
        } else {
            0
        };
        if va != vb {
            diff = diff + 1;
        }
        i = i + 1;
    }
    ratio_of_counts(diff as u64, len as u64)
}

// The decision

/// What a signal says, where there is one.
pub open spec fn said(signal: Option<&Signal>) -> Option<SignalView> {
    match signal {
        Some(s) => Some(s@),
        None => None,
    }
}

/// Both signals have an embedding.
pub open spec fn are_embedded(a: SignalView, b: SignalView) -> bool {
    a.embedding.len() > 0 && b.embedding.len() > 0
}

/// The signal `current` stays within the deadband around `previous`, with `distance` the distance
/// between their embeddings. Where one of them has no embedding, the distance counts as zero.
pub open spec fn suppresses(
    config: DeadbandConfig,
    previous: Option<SignalView>,
    current: SignalView,
    distance: u64,
) -> bool {
    match previous {
        None => false,
        Some(prev) => {
            let difference = if !config.use_embedding {
                payload_difference(prev.payload, current.payload)
            } else if are_embedded(prev, current) {
                distance
            } else {
                0
            };
            below(0, config.tolerance) && below(difference, config.tolerance)
        },
    }
}

/// The decision depends on the distance between embeddings.
pub open spec fn depends_on_distance(
    config: DeadbandConfig,
    previous: Option<SignalView>,
    current: SignalView,
) -> bool {
    match previous {
        None => false,
        Some(prev) => config.use_embedding && below(0, config.tolerance) && are_embedded(
            prev,
            current,
        ),
    }
}

/// `d` is a distance that `distance` gives between the embeddings `a` and `b`.
pub open spec fn is_measured<D: Fn(&Vec<u64>, &Vec<u64>) -> u64>(
    distance: D,
    a: Seq<u64>,
    b: Seq<u64>,
    d: u64,
) -> bool {
    exists|p: &Vec<u64>, q: &Vec<u64>|
        p@ == a && q@ == b && #[trigger] call_ensures(distance, (p, q), d)
}

/// `distance` can be asked for any two embeddings.
pub open spec fn is_total<D: Fn(&Vec<u64>, &Vec<u64>) -> u64>(distance: D) -> bool {
    forall|p: &Vec<u64>, q: &Vec<u64>| #[trigger] call_requires(distance, (p, q))
}

/// Measures the distance between two embeddings, if the decision depends on it.
pub fn measure<D: Fn(&Vec<u64>, &Vec<u64>) -> u64>(
    config: &DeadbandConfig,
    previous: Option<&Signal>,
    current: &Signal,
    distance: &D,
) -> (r: u64)
    requires
        is_total(*distance),
    ensures
        depends_on_distance(*config, said(previous), current@) ==> is_measured(
            *distance,
            said(previous).unwrap().embedding,
            current@.embedding,
            r,
        ),
        !depends_on_distance(*config, said(previous), current@) ==> r == 0,
{
    match previous {
        None => 0,
        Some(prev) => {
            if config.use_embedding && is_below(0, config.tolerance) && prev.embedding.len() > 0
                && current.embedding.len() > 0 {
                distance(&prev.embedding, &current.embedding)
            } else {
                0
            }
        },
    }
}

/// Tells whether `current` stays within the deadband around `previous`, given the distance between
/// their embeddings.
pub fn within_deadband(
    config: &DeadbandConfig,
    previous: Option<&Signal>,
    current: &Signal,
    distance: u64,
) -> (r: bool)
    ensures
        r == suppresses(*config, said(previous), current@, distance),
{
    match previous {
        None => false,
        Some(prev) => {
            if !is_below(0, config.tolerance) {
                return false;
            }
            let diff: u64 = if !config.use_embedding {
                byte_diff(&prev.payload, &current.payload)
            } else if prev.embedding.len() > 0 && current.embedding.len() > 0 {
                distance
            } else {
                0
            };
            is_below(diff, config.tolerance)
        },
    }
}

/// Returns `true` if the signal should be suppressed (within deadband). The distance between two
/// embeddings is what `distance` says; it is asked only where the decision depends on it.
pub fn apply_deadband<D: Fn(&Vec<u64>, &Vec<u64>) -> u64>(
    config: &DeadbandConfig,
    previous: Option<&Signal>,
    current: &Signal,
    distance: D,
) -> (r: bool)
    requires
        is_total(distance),
    ensures
        depends_on_distance(*config, said(previous), current@) ==> exists|d: u64|
            #[trigger] is_measured(
                distance,
                said(previous).unwrap().embedding,
                current@.embedding,
                d,
            ) && r == suppresses(*config, said(previous), current@, d),
        !depends_on_distance(*config, said(previous), current@) ==> r == suppresses(
            *config,
            said(previous),
            current@,
            0,
        ),
{
    let d: u64 = measure(config, previous, current, &distance);
    within_deadband(config, previous, current, d)
}

} // verus!
