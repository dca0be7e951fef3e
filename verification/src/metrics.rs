//! Latency figures of a run, picked from the sorted measurements.

use vstd::prelude::*;

verus! {

/// Whether `s` is in ascending order.
pub open spec fn ascending(s: Seq<u64>) -> bool {
    forall|i: int, j: int| 0 <= i <= j < s.len() ==> s[i] <= s[j]
}

/// The place in a sorted run of `len` measurements where the fraction
/// `per_mille` of them lies below: `len * per_mille / 1000`, rounded down.
pub open spec fn rank(len: nat, per_mille: nat) -> nat {
    len * per_mille / 1000
}

/// The latencies that sum up a run, in nanoseconds.
#[derive(Clone, Copy, Debug, PartialEq, Eq, Structural)]
pub struct LatencySummary {
    /// The smallest measurement.
    pub min: u64,
    /// The measurement at half of the sorted run.
    pub p50: u64,
    /// The measurement at 99 hundredths of the sorted run.
    pub p99: u64,
    /// The measurement at 999 thousandths of the sorted run.
    pub p99_9: u64,
    /// The largest measurement.
    pub max: u64,
}

impl LatencySummary {
    /// The summary of a sorted, non-empty run.
    pub open spec fn of_sorted(s: Seq<u64>) -> LatencySummary {
        LatencySummary {
            min: s[0],
            p50: s[rank(s.len(), 500) as int],
            p99: s[rank(s.len(), 990) as int],
            p99_9: s[rank(s.len(), 999) as int],
            max: s[s.len() - 1],
        }
    }

    /// Sorts the measurements and picks the summary from them; `None` when
    /// there are none.
    pub fn from_measurements(latencies: &mut Vec<u64>) -> (r: Option<LatencySummary>)
        ensures
            ascending(final(latencies)@),
            final(latencies)@.to_multiset() == old(latencies)@.to_multiset(),
            final(latencies)@.len() == old(latencies)@.len(),
            old(latencies)@.len() == 0 ==> r is None,
            old(latencies)@.len() > 0 ==> r == Some(Self::of_sorted(final(latencies)@)),
    {
        sort_ascending(latencies);
        proof {
            old(latencies)@.to_multiset_ensures();
            latencies@.to_multiset_ensures();
        }
        let len = latencies.len();
        if len == 0 {
            return None;
        }
        Some(
            LatencySummary {
                min: latencies[0],
                p50: latencies[place(len, 500)],
                p99: latencies[place(len, 990)],
                p99_9: latencies[place(len, 999)],
                max: latencies[len - 1],
            },
        )
    }
}

/// Computes the place of a fraction below one in a run of `len`.
fn place(len: usize, per_mille: u16) -> (at: usize)
    requires
        per_mille < 1000,
        len > 0,
    ensures
        at == rank(len as nat, per_mille as nat),
        at < len,
{
    assert(len * per_mille <= len * 1000 <= u128::MAX && len * per_mille / 1000 < len)
        by (nonlinear_arith)
        requires
            per_mille < 1000,
            0 < len <= usize::MAX,
    ;
    (len as u128 * per_mille as u128 / 1000) as usize
}

/// Calls `sort_unstable` of the standard library on the vector: afterwards
/// it holds the same values, each as often as before, in ascending order.
#[verifier::external_body]
fn sort_ascending(v: &mut Vec<u64>)
    ensures
        ascending(final(v)@),
        final(v)@.to_multiset() == old(v)@.to_multiset(),
{
    v.sort_unstable();
}

} // verus!
