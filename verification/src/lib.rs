//! Scans a sequence of numeric steps and reports the first step that cannot
//! be written as the sum of two distinct occurrences drawn from the window of
//! the `tunnel_len` steps immediately preceding it.

use vstd::prelude::*;

pub mod tunnel_utils;

verus! {

use crate::tunnel_utils::SortedTunnel;
use crate::tunnel_utils::has_pair;
use crate::tunnel_utils::spec_safe;

/// Holds information on what value (`step`) would cause the tunnel to
/// collapse and at which zero-based position (`index`) it would happen.
#[derive(Debug, PartialEq, Eq, Structural, Clone, Copy)]
pub struct IndexedStep {
    pub step: u128,
    pub index: usize,
}

/// The window state right before position `i` is examined: the `n` steps
/// at positions `i - n` up to (excluding) `i`, oldest first.
pub open spec fn window_before(s: Seq<u128>, n: int, i: int) -> Seq<u128> {
    s.subrange(i - n, i)
}

/// The first violation at position `i` or beyond: the first position whose
/// step is not covered by a pair from the window of the `n` steps preceding
/// it, paired with that step; `None` when the rest of the sequence is safe.
pub open spec fn scan_from(s: Seq<u128>, n: int, i: int) -> Option<IndexedStep>
    decreases s.len() - i,
{
    if i < 0 || i >= s.len() {
        None
    } else if !spec_safe(window_before(s, n, i), s[i]) {
        Some(IndexedStep { step: s[i], index: i as usize })
    } else {
        scan_from(s, n, i + 1)
    }
}

/// The full scan over `s` with window length `n`: every position from `n`
/// on is validated against the window of the `n` steps preceding it; the
/// first `n` positions only seed the window.
pub open spec fn scan_spec(s: Seq<u128>, n: int) -> Option<IndexedStep> {
    scan_from(s, n, n)
}

/// Consumes `steps_in_tunnel` until it finds a step at which the tunnel
/// would collapse.  The tunnel collapses at a step that cannot be
/// represented as a sum of two of the `tunnel_len` elements preceding it
/// (two distinct occurrences: equal values at distinct positions may pair).
/// Returns `None` if the tunnel is safe, including the case when
/// `tunnel_len` is bigger than or equal to the length of `steps_in_tunnel`.
#[verifier::loop_isolation(false)]
pub fn get_critical_number(steps_in_tunnel: &Vec<u128>, tunnel_len: usize) -> (answer: Option<
    IndexedStep,
>)
    requires
        tunnel_len >= 1,
    ensures
        answer == scan_spec(steps_in_tunnel@, tunnel_len as int),
{
    let ghost s = steps_in_tunnel@;
    let ghost n = tunnel_len as int;
    if steps_in_tunnel.len() <= tunnel_len {
        return None;
    }
    let mut tunnel: Vec<u128> = Vec::new();
    let mut k: usize = 0;
    while k < tunnel_len
        invariant
            k <= tunnel_len,
            tunnel@ == s.subrange(0, k as int),
        decreases tunnel_len - k,
    {
        tunnel.push(steps_in_tunnel[k]);
        proof {
            assert(tunnel@ =~= s.subrange(0, k + 1));
        }
        k = k + 1;
    }
    let mut sorted_tunnel = SortedTunnel::new(tunnel);
    let mut index: usize = tunnel_len;
    while index < steps_in_tunnel.len()
        invariant
            tunnel_len <= index <= steps_in_tunnel.len(),
            sorted_tunnel.wf(),
            sorted_tunnel@ == window_before(s, n, index as int),
            scan_from(s, n, n) == scan_from(s, n, index as int),
        decreases steps_in_tunnel.len() - index,
    {
        let step = steps_in_tunnel[index];
        if !sorted_tunnel.is_tunnel_safe(step) {
            return Some(IndexedStep { index, step });
        }
        sorted_tunnel.shift_right(step);
        proof {
            assert(sorted_tunnel@ =~= window_before(s, n, index + 1));
        }
        index = index + 1;
    }
    None
}

/// A sequence no longer than the window length leaves nothing to validate
/// after seeding, so the scan reports it safe by definition.
pub proof fn lemma_short_sequence_safe(s: Seq<u128>, n: int)
    requires
        n >= 1,
        s.len() <= n,
    ensures
        scan_spec(s, n) is None,
{
}

/// Walks the scan from position `i0` to its reported violation.
proof fn lemma_scan_from_found(s: Seq<u128>, n: int, i0: int, found: IndexedStep)
    requires
        0 <= i0,
        s.len() <= usize::MAX,
        scan_from(s, n, i0) == Some(found),
    ensures
        i0 <= found.index < s.len(),
        s[found.index as int] == found.step,
        !spec_safe(window_before(s, n, found.index as int), found.step),
        forall|j: int| i0 <= j < found.index ==> spec_safe(window_before(s, n, j), s[j]),
    decreases s.len() - i0,
{
    if !spec_safe(window_before(s, n, i0), s[i0]) {
        assert(found.index == i0 as usize);
    } else {
        lemma_scan_from_found(s, n, i0 + 1, found);
    }
}

/// A reported violation is exact: the reported step stands at the reported
/// position, no two distinct occurrences of the window preceding that
/// position sum to it (for a non-zero step; a zero step is always reported,
/// as the ordered search never covers a candidate of zero), and every
/// position between the seed and the violation was covered by such a pair.
pub proof fn lemma_violation_characterized(s: Seq<u128>, n: int, found: IndexedStep)
    requires
        n >= 1,
        s.len() <= usize::MAX,
        scan_spec(s, n) == Some(found),
    ensures
        n <= found.index < s.len(),
        s[found.index as int] == found.step,
        found.step != 0 ==> !has_pair(window_before(s, n, found.index as int), found.step),
        forall|j: int| n <= j < found.index ==> has_pair(window_before(s, n, j), s[j]),
{
    lemma_scan_from_found(s, n, n, found);
}

} // verus!
